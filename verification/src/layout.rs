//! Rectangles, the constraints and anchors that shape them, and the division
//! of a split's rectangle among its children.
use vstd::prelude::*;

verus! {

/// One term of a size: a number of cells, or a fraction of the parent.
#[derive(Clone, Copy)]
pub enum Dimension {
    AddAbsolute(u16),
    AddRelative(u16),
    SubAbsolute(u16),
    SubRelative(u16),
}

/// One term of a position relative to the parent.
#[derive(Clone, Copy)]
pub enum Position {
    AddAbsolute(u16),
    AddRelative(u16),
    SubAbsolute(u16),
    SubRelative(u16),
}

#[derive(Clone, Copy)]
pub struct Rect {
    pub x: u16,
    pub y: u16,
    pub h: u16,
    pub w: u16,
}

#[derive(Clone, Copy, PartialEq, Eq, Structural)]
pub enum Direction {
    Horizontal,
    Vertical,
}

/// What one term makes of the sum so far: subtraction stops at zero.
pub open spec fn dimension_step(acc: int, size: int, d: Dimension) -> int {
    match d {
        Dimension::AddAbsolute(a) => acc + a,
        Dimension::AddRelative(r) => acc + size / (r as int),
        Dimension::SubAbsolute(a) => if acc >= a { acc - a } else { 0 },
        Dimension::SubRelative(r) => if acc >= size / (r as int) {
            acc - size / (r as int)
        } else {
            0
        },
    }
}

/// No fraction of a term divides by zero.
pub open spec fn dimension_divides(d: Dimension) -> bool {
    match d {
        Dimension::AddRelative(r) => r != 0,
        Dimension::SubRelative(r) => r != 0,
        _ => true,
    }
}

/// The sum of the terms, taken from the left, for a parent of the given size.
pub open spec fn extent(dims: Seq<Dimension>, size: int) -> int
    decreases dims.len(),
{
    if dims.len() == 0 {
        0
    } else {
        dimension_step(extent(dims.drop_last(), size), size, dims.last())
    }
}

/// Every partial sum is a `u16`, and no term divides by zero.
pub open spec fn extent_fits(dims: Seq<Dimension>, size: int) -> bool
    decreases dims.len(),
{
    dims.len() == 0 || {
        &&& extent_fits(dims.drop_last(), size)
        &&& dimension_divides(dims.last())
        &&& extent(dims, size) <= u16::MAX
    }
}

/// What one term makes of the position so far: subtraction stops at zero.
pub open spec fn position_step(acc: int, size: int, p: Position) -> int {
    match p {
        Position::AddAbsolute(a) => acc + a,
        Position::AddRelative(r) => acc + size / (r as int),
        Position::SubAbsolute(a) => if acc >= a { acc - a } else { 0 },
        Position::SubRelative(r) => if acc >= size / (r as int) {
            acc - size / (r as int)
        } else {
            0
        },
    }
}

/// No fraction of a term divides by zero.
pub open spec fn position_divides(p: Position) -> bool {
    match p {
        Position::AddRelative(r) => r != 0,
        Position::SubRelative(r) => r != 0,
        _ => true,
    }
}

/// The sum of the terms, taken from the left, for a parent of the given size.
pub open spec fn offset(terms: Seq<Position>, size: int) -> int
    decreases terms.len(),
{
    if terms.len() == 0 {
        0
    } else {
        position_step(offset(terms.drop_last(), size), size, terms.last())
    }
}

/// Every partial sum is a `u16`, and no term divides by zero.
pub open spec fn offset_fits(terms: Seq<Position>, size: int) -> bool
    decreases terms.len(),
{
    terms.len() == 0 || {
        &&& offset_fits(terms.drop_last(), size)
        &&& position_divides(terms.last())
        &&& offset(terms, size) <= u16::MAX
    }
}

pub proof fn lemma_extent_nonneg(dims: Seq<Dimension>, size: int)
    requires
        size >= 0,
        extent_fits(dims, size),
    ensures
        0 <= extent(dims, size) <= u16::MAX,
    decreases dims.len(),
{
    if dims.len() > 0 {
        lemma_extent_nonneg(dims.drop_last(), size);
        lemma_div_nonneg(size, dims.last());
    }
}

proof fn lemma_div_nonneg(size: int, d: Dimension)
    requires
        size >= 0,
        dimension_divides(d),
    ensures
        match d {
            Dimension::AddRelative(r) => 0 <= size / (r as int) <= size,
            Dimension::SubRelative(r) => 0 <= size / (r as int) <= size,
            _ => true,
        },
{
    match d {
        Dimension::AddRelative(r) => {
            assert(0 <= size / (r as int) <= size) by (nonlinear_arith)
                requires
                    size >= 0,
                    r > 0,
            ;
        },
        Dimension::SubRelative(r) => {
            assert(0 <= size / (r as int) <= size) by (nonlinear_arith)
                requires
                    size >= 0,
                    r > 0,
            ;
        },
        _ => {},
    }
}

pub proof fn lemma_offset_nonneg(terms: Seq<Position>, size: int)
    requires
        size >= 0,
        offset_fits(terms, size),
    ensures
        0 <= offset(terms, size) <= u16::MAX,
    decreases terms.len(),
{
    if terms.len() > 0 {
        lemma_offset_nonneg(terms.drop_last(), size);
        match terms.last() {
            Position::AddRelative(r) => {
                lemma_div_nonneg(size, Dimension::AddRelative(r));
            },
            Position::SubRelative(r) => {
                lemma_div_nonneg(size, Dimension::SubRelative(r));
            },
            _ => {},
        }
    }
}

fn sum_dimensions(dims: &Vec<Dimension>, size: u16) -> (res: u16)
    requires
        extent_fits(dims@, size as int),
    ensures
        res == extent(dims@, size as int),
{
    let mut res: u16 = 0;
    let mut i: usize = 0;
    proof {
        lemma_prefixes_fit(dims@, size as int);
        assert(dims@.take(0) =~= Seq::<Dimension>::empty());
    }
    while i < dims.len()
        invariant
            i <= dims@.len(),
            res == extent(dims@.take(i as int), size as int),
            forall|k: int| 0 <= k <= dims@.len() ==> extent_fits(#[trigger] dims@.take(k), size as int),
        decreases dims@.len() - i,
    {
        proof {
            let next = dims@.take(i + 1);
            assert(next.drop_last() =~= dims@.take(i as int));
            assert(extent_fits(next, size as int));
            lemma_extent_nonneg(next, size as int);
            lemma_extent_nonneg(dims@.take(i as int), size as int);
        }
        match dims[i] {
            Dimension::AddAbsolute(a) => {
                res = res + a;
            },
            Dimension::AddRelative(r) => {
                res = res + size / r;
            },
            Dimension::SubAbsolute(a) => {
                res = res.saturating_sub(a);
            },
            Dimension::SubRelative(r) => {
                res = res.saturating_sub(size / r);
            },
        }
        i = i + 1;
    }
    assert(dims@.take(i as int) =~= dims@);
    res
}

proof fn lemma_prefixes_fit(dims: Seq<Dimension>, size: int)
    requires
        extent_fits(dims, size),
    ensures
        forall|k: int| 0 <= k <= dims.len() ==> extent_fits(#[trigger] dims.take(k), size),
    decreases dims.len(),
{
    assert(dims.take(dims.len() as int) =~= dims);
    if dims.len() > 0 {
        lemma_prefixes_fit(dims.drop_last(), size);
        assert forall|k: int| 0 <= k <= dims.len() implies extent_fits(
            #[trigger] dims.take(k),
            size,
        ) by {
            if k < dims.len() {
                assert(dims.drop_last().take(k) =~= dims.take(k));
            }
        }
    }
}

fn sum_positions(terms: &Vec<Position>, size: u16) -> (res: u16)
    requires
        offset_fits(terms@, size as int),
    ensures
        res == offset(terms@, size as int),
{
    let mut res: u16 = 0;
    let mut i: usize = 0;
    proof {
        lemma_position_prefixes_fit(terms@, size as int);
        assert(terms@.take(0) =~= Seq::<Position>::empty());
    }
    while i < terms.len()
        invariant
            i <= terms@.len(),
            res == offset(terms@.take(i as int), size as int),
            forall|k: int| 0 <= k <= terms@.len() ==> offset_fits(#[trigger] terms@.take(k), size as int),
        decreases terms@.len() - i,
    {
        proof {
            let next = terms@.take(i + 1);
            assert(next.drop_last() =~= terms@.take(i as int));
            assert(offset_fits(next, size as int));
            lemma_offset_nonneg(next, size as int);
            lemma_offset_nonneg(terms@.take(i as int), size as int);
        }
        match terms[i] {
            Position::AddAbsolute(a) => {
                res = res + a;
            },
            Position::AddRelative(r) => {
                res = res + size / r;
            },
            Position::SubAbsolute(a) => {
                res = res.saturating_sub(a);
            },
            Position::SubRelative(r) => {
                res = res.saturating_sub(size / r);
            },
        }
        i = i + 1;
    }
    assert(terms@.take(i as int) =~= terms@);
    res
}

proof fn lemma_position_prefixes_fit(terms: Seq<Position>, size: int)
    requires
        offset_fits(terms, size),
    ensures
        forall|k: int| 0 <= k <= terms.len() ==> offset_fits(#[trigger] terms.take(k), size),
    decreases terms.len(),
{
    assert(terms.take(terms.len() as int) =~= terms);
    if terms.len() > 0 {
        lemma_position_prefixes_fit(terms.drop_last(), size);
        assert forall|k: int| 0 <= k <= terms.len() implies offset_fits(
            #[trigger] terms.take(k),
            size,
        ) by {
            if k < terms.len() {
                assert(terms.drop_last().take(k) =~= terms.take(k));
            }
        }
    }
}

/// The terms of an optional list, as a sequence.
pub open spec fn terms_view<T>(terms: Option<Vec<T>>) -> Option<Seq<T>> {
    match terms {
        Some(v) => Some(v@),
        None => None,
    }
}

/// The least and greatest size that a node asks of its parent.
pub struct Constraints {
    pub min_height: Option<Vec<Dimension>>,
    pub max_height: Option<Vec<Dimension>>,
    pub min_width: Option<Vec<Dimension>>,
    pub max_width: Option<Vec<Dimension>>,
}

pub struct ConstraintsView {
    pub min_height: Option<Seq<Dimension>>,
    pub max_height: Option<Seq<Dimension>>,
    pub min_width: Option<Seq<Dimension>>,
    pub max_width: Option<Seq<Dimension>>,
}

/// The size that optional terms ask for, never more than the parent has.
pub open spec fn bounded_extent(dims: Option<Seq<Dimension>>, size: int) -> Option<int> {
    match dims {
        Some(d) => Some(
            if extent(d, size) <= size {
                extent(d, size)
            } else {
                size
            },
        ),
        None => None,
    }
}

/// The terms, if there are any, can be summed for a parent of this size.
pub open spec fn option_extent_fits(dims: Option<Seq<Dimension>>, size: int) -> bool {
    dims matches Some(d) ==> extent_fits(d, size)
}

/// The position that optional terms ask for.
pub open spec fn option_offset(terms: Option<Seq<Position>>, size: int) -> Option<int> {
    match terms {
        Some(t) => Some(offset(t, size)),
        None => None,
    }
}

/// The terms, if there are any, can be summed for a parent of this size.
pub open spec fn option_offset_fits(terms: Option<Seq<Position>>, size: int) -> bool {
    terms matches Some(t) ==> offset_fits(t, size)
}

/// The mathematical value of an optional size.
pub open spec fn option_int(o: Option<u16>) -> Option<int> {
    match o {
        Some(v) => Some(v as int),
        None => None,
    }
}

impl View for Constraints {
    type V = ConstraintsView;

    open spec fn view(&self) -> ConstraintsView {
        ConstraintsView {
            min_height: terms_view(self.min_height),
            max_height: terms_view(self.max_height),
            min_width: terms_view(self.min_width),
            max_width: terms_view(self.max_width),
        }
    }
}

impl ConstraintsView {
    pub open spec fn free() -> ConstraintsView {
        ConstraintsView { min_height: None, max_height: None, min_width: None, max_width: None }
    }
}

fn bounded_sum(dims: &Option<Vec<Dimension>>, size: u16) -> (res: Option<u16>)
    requires
        option_extent_fits(terms_view(*dims), size as int),
    ensures
        option_int(res) == bounded_extent(terms_view(*dims), size as int),
{
    match dims {
        None => None,
        Some(d) => {
            let res: u16 = sum_dimensions(d, size);
            if res <= size {
                Some(res)
            } else {
                Some(size)
            }
        },
    }
}

impl Constraints {
    /// A node that asks for nothing.
    pub fn new() -> (res: Self)
        ensures
            res@ == ConstraintsView::free(),
    {
        Constraints { min_height: None, max_height: None, min_width: None, max_width: None }
    }

    pub fn calc_min_width(&self, parent: Rect) -> (res: Option<u16>)
        requires
            option_extent_fits(self@.min_width, parent.w as int),
        ensures
            option_int(res) == bounded_extent(self@.min_width, parent.w as int),
    {
        bounded_sum(&self.min_width, parent.w)
    }

    pub fn calc_min_height(&self, parent: Rect) -> (res: Option<u16>)
        requires
            option_extent_fits(self@.min_height, parent.h as int),
        ensures
            option_int(res) == bounded_extent(self@.min_height, parent.h as int),
    {
        bounded_sum(&self.min_height, parent.h)
    }

    pub fn calc_max_width(&self, parent: Rect) -> (res: Option<u16>)
        requires
            option_extent_fits(self@.max_width, parent.w as int),
        ensures
            option_int(res) == bounded_extent(self@.max_width, parent.w as int),
    {
        bounded_sum(&self.max_width, parent.w)
    }

    pub fn calc_max_height(&self, parent: Rect) -> (res: Option<u16>)
        requires
            option_extent_fits(self@.max_height, parent.h as int),
        ensures
            option_int(res) == bounded_extent(self@.max_height, parent.h as int),
    {
        bounded_sum(&self.max_height, parent.h)
    }
}

/// Where a node asks to stand inside its parent: `x` of 1 is one cell to the
/// right of the parent's own `x`.
pub struct Anchors {
    pub x: Option<Vec<Position>>,
    pub y: Option<Vec<Position>>,
}

pub struct AnchorsView {
    pub x: Option<Seq<Position>>,
    pub y: Option<Seq<Position>>,
}

impl View for Anchors {
    type V = AnchorsView;

    open spec fn view(&self) -> AnchorsView {
        AnchorsView { x: terms_view(self.x), y: terms_view(self.y) }
    }
}

impl AnchorsView {
    pub open spec fn free() -> AnchorsView {
        AnchorsView { x: None, y: None }
    }
}

impl Anchors {
    /// A node that stands where its turn among its siblings puts it.
    pub fn new() -> (res: Self)
        ensures
            res@ == AnchorsView::free(),
    {
        Anchors { x: None, y: None }
    }

    pub fn calc_x(&self, parent: Rect) -> (res: Option<u16>)
        requires
            option_offset_fits(self@.x, parent.w as int),
        ensures
            option_int(res) == option_offset(self@.x, parent.w as int),
    {
        match &self.x {
            None => None,
            Some(t) => Some(sum_positions(t, parent.w)),
        }
    }

    pub fn calc_y(&self, parent: Rect) -> (res: Option<u16>)
        requires
            option_offset_fits(self@.y, parent.h as int),
        ensures
            option_int(res) == option_offset(self@.y, parent.h as int),
    {
        match &self.y {
            None => None,
            Some(t) => Some(sum_positions(t, parent.h)),
        }
    }
}

fn copy_dimensions(d: &Option<Vec<Dimension>>) -> (res: Option<Vec<Dimension>>)
    ensures
        terms_view(res) == terms_view(*d),
{
    match d {
        Some(v) => {
            let mut w: Vec<Dimension> = Vec::new();
            let mut i: usize = 0;
            while i < v.len()
                invariant
                    i <= v@.len(),
                    w@ =~= v@.take(i as int),
                decreases v@.len() - i,
            {
                w.push(v[i]);
                i = i + 1;
            }
            assert(w@ =~= v@);
            Some(w)
        },
        None => None,
    }
}

fn copy_positions(d: &Option<Vec<Position>>) -> (res: Option<Vec<Position>>)
    ensures
        terms_view(res) == terms_view(*d),
{
    match d {
        Some(v) => {
            let mut w: Vec<Position> = Vec::new();
            let mut i: usize = 0;
            while i < v.len()
                invariant
                    i <= v@.len(),
                    w@ =~= v@.take(i as int),
                decreases v@.len() - i,
            {
                w.push(v[i]);
                i = i + 1;
            }
            assert(w@ =~= v@);
            Some(w)
        },
        None => None,
    }
}

impl Constraints {
    /// The same constraints again.
    pub fn copy(&self) -> (res: Constraints)
        ensures
            res@ == self@,
    {
        Constraints {
            min_height: copy_dimensions(&self.min_height),
            max_height: copy_dimensions(&self.max_height),
            min_width: copy_dimensions(&self.min_width),
            max_width: copy_dimensions(&self.max_width),
        }
    }
}

impl Anchors {
    /// The same anchors again.
    pub fn copy(&self) -> (res: Anchors)
        ensures
            res@ == self@,
    {
        Anchors { x: copy_positions(&self.x), y: copy_positions(&self.y) }
    }
}

} // verus!
