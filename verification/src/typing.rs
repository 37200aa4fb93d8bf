//! What typing, moving and selecting come to in the command line, said of the
//! characters in front of the cursor and those behind it.
use vstd::prelude::*;
use crate::auto_complete;
use crate::auto_complete::AutoCompleteView;
use crate::cmd_line;
use crate::cmd_line::{CmdLineView, Mode};
use crate::strings;

verus! {

/// The line holds no message, and the cursor stands between two texts.
pub open spec fn stands(l: CmdLineView, a: Seq<char>, b: Seq<char>) -> bool {
    &&& l.input == a + b
    &&& l.cursor == strings::utf8_len(a)
    &&& !l.error
}

/// All but the text and the cursor of the line is the same.
pub open spec fn same_state(l: CmdLineView, m: CmdLineView) -> bool {
    m.mode == l.mode && m.selection == l.selection && m.last_view == l.last_view
}

pub proof fn lemma_stands(l: CmdLineView, a: Seq<char>, b: Seq<char>)
    requires
        stands(l, a, b),
    ensures
        strings::byte_at(l.input, a.len() as int) == l.cursor,
        strings::char_at(l.input, l.cursor) == a.len(),
        l.on_char(),
        l.cursor >= a.len(),
        l.cursor <= strings::utf8_len(l.input),
        l.at_end() <==> b.len() == 0,
{
    assert(l.input.take(a.len() as int) =~= a);
    strings::lemma_char_at(l.input, a.len() as int);
    strings::lemma_char_at(l.input, l.input.len() as int);
    strings::lemma_byte_at_ordered(l.input, a.len() as int, l.input.len() as int);
}

proof fn lemma_utf8_push(a: Seq<char>, c: char)
    ensures
        strings::utf8_len(a.push(c)) == strings::utf8_len(a) + strings::width(c),
{
    assert(a.push(c).drop_last() =~= a);
}

// ---- typing

/// A character is typed in between what is in front of the cursor and what is
/// behind it, and the cursor goes behind it.
pub proof fn law_typed_in_line(l: CmdLineView, a: Seq<char>, b: Seq<char>, c: char)
    requires
        stands(l, a, b),
    ensures
        stands(l.inserted(c), a.push(c), b),
        same_state(l, l.inserted(c)),
{
    lemma_stands(l, a, b);
    lemma_utf8_push(a, c);
    assert(l.input.insert(a.len() as int, c) =~= a.push(c) + b);
}

/// Taking a character out takes the one in front of the cursor, if there is
/// one.
pub proof fn law_erased_in_line(l: CmdLineView, a: Seq<char>, b: Seq<char>)
    requires
        stands(l, a, b),
    ensures
        a.len() > 0 ==> stands(l.erased(), a.drop_last(), b),
        a.len() == 0 ==> l.erased() == l,
        same_state(l, l.erased()),
{
    lemma_stands(l, a, b);
    if a.len() > 0 {
        assert(l.input.remove(a.len() - 1) =~= a.drop_last() + b);
    }
}

/// A message goes as soon as something is typed or taken out.
pub proof fn law_message_goes(l: CmdLineView, c: char)
    requires
        l.error,
    ensures
        stands(l.inserted(c), seq![c], Seq::empty()),
        stands(l.erased(), Seq::empty(), Seq::empty()),
        same_state(l, l.inserted(c)),
        same_state(l, l.erased()),
{
    let m = l.cleared();
    let none = Seq::<char>::empty();
    assert(none + none =~= none);
    assert(stands(m, none, none));
    law_typed_in_line(m, none, none, c);
    law_erased_in_line(m, none, none);
    assert(none.push(c) =~= seq![c]);
    assert(m.inserted(c) == l.inserted(c));
    assert(m.erased() == l.erased());
}

/// A text is pasted in at the cursor, which goes behind it.
pub proof fn law_pasted_in_line(l: CmdLineView, a: Seq<char>, b: Seq<char>, s: Seq<char>)
    requires
        stands(l, a, b),
    ensures
        stands(l.inserted_all(s), a + s, b),
        same_state(l, l.inserted_all(s)),
    decreases s.len(),
{
    if s.len() == 0 {
        assert(a + s =~= a);
    } else {
        law_pasted_in_line(l, a, b, s.drop_last());
        law_typed_in_line(l.inserted_all(s.drop_last()), a + s.drop_last(), b, s.last());
        assert((a + s.drop_last()).push(s.last()) =~= a + s);
    }
}

/// What is pasted has lost its line breaks, and nothing else.
pub proof fn law_unbroken(s: Seq<char>, t: Seq<char>, c: char)
    ensures
        !cmd_line::unbroken(s).contains('\n'),
        cmd_line::unbroken(s + t) == cmd_line::unbroken(s) + cmd_line::unbroken(t),
        c != '\n' ==> cmd_line::unbroken(seq![c]) == seq![c],
        cmd_line::unbroken(seq!['\n']) == Seq::<char>::empty(),
    decreases t.len(),
{
    let f = |c: char| c != '\n';
    reveal(Seq::filter);
    assert(seq![c].drop_last() =~= Seq::<char>::empty());
    assert(Seq::<char>::empty().filter(f) =~= Seq::<char>::empty());
    assert(Seq::<char>::empty().push(c) =~= seq![c]);
    assert(seq!['\n'].drop_last() =~= Seq::<char>::empty());
    if t.len() == 0 {
        assert(s + t =~= s);
        assert(t.filter(f) =~= Seq::<char>::empty());
        lemma_no_breaks(s);
    } else {
        law_unbroken(s, t.drop_last(), c);
        assert((s + t).drop_last() =~= s + t.drop_last());
        assert((s + t).filter(f) =~= s.filter(f) + t.filter(f));
    }
}

proof fn lemma_no_breaks(s: Seq<char>)
    ensures
        !cmd_line::unbroken(s).contains('\n'),
    decreases s.len(),
{
    reveal(Seq::filter);
    if s.len() > 0 {
        lemma_no_breaks(s.drop_last());
        let (before, after) = (cmd_line::unbroken(s.drop_last()), cmd_line::unbroken(s));
        if after.contains('\n') {
            let k = choose|k: int| 0 <= k < after.len() && after[k] == '\n';
            if k < before.len() {
                assert(before[k] == '\n');
            }
        }
    }
}

// ---- moving

/// Left goes in front of the character before the cursor, if there is one.
pub proof fn law_left_in_line(l: CmdLineView, a: Seq<char>, b: Seq<char>)
    requires
        stands(l, a, b),
    ensures
        a.len() > 0 ==> stands(l.moved_left(), a.drop_last(), seq![a.last()] + b),
        a.len() == 0 ==> l.moved_left() == l,
        l.moved_left() == (CmdLineView { cursor: l.moved_left().cursor, ..l }),
{
    lemma_stands(l, a, b);
    if a.len() > 0 {
        let k = a.len() as int;
        let s = l.input;
        assert(a.drop_last() + (seq![a.last()] + b) =~= s);
        assert(s.take(k - 1) =~= a.drop_last());
        strings::lemma_byte_at_step(s, k - 1);
        strings::lemma_byte_at_ordered(s, 0, k - 1);
        if b.len() > 0 {
            cmd_line::lemma_prev_settled(s, l.cursor, k, s.len() as int);
        }
        assert(cmd_line::prev_from(s, l.cursor, k) == strings::byte_at(s, k - 1));
    } else {
        assert(strings::utf8_len(a) == 0);
    }
}

/// Right goes behind the character at the cursor, if there is one.
pub proof fn law_right_in_line(l: CmdLineView, a: Seq<char>, b: Seq<char>)
    requires
        stands(l, a, b),
    ensures
        b.len() > 0 ==> stands(l.moved_right(), a.push(b[0]), b.skip(1)),
        b.len() == 0 ==> l.moved_right() == l,
        l.moved_right() == (CmdLineView { cursor: l.moved_right().cursor, ..l }),
{
    lemma_stands(l, a, b);
    if b.len() > 0 {
        lemma_utf8_push(a, b[0]);
        assert(a.push(b[0]) + b.skip(1) =~= l.input);
        assert(l.input[a.len() as int] == b[0]);
    }
}

/// Left takes right back, and right left.
pub proof fn law_there_and_back_in_line(l: CmdLineView, a: Seq<char>, b: Seq<char>)
    requires
        stands(l, a, b),
    ensures
        b.len() > 0 ==> l.moved_right().moved_left() == l,
        a.len() > 0 ==> l.moved_left().moved_right() == l,
{
    law_right_in_line(l, a, b);
    law_left_in_line(l, a, b);
    if b.len() > 0 {
        law_left_in_line(l.moved_right(), a.push(b[0]), b.skip(1));
        assert(a.push(b[0]).drop_last() =~= a);
    }
    if a.len() > 0 {
        let c = seq![a.last()] + b;
        law_right_in_line(l.moved_left(), a.drop_last(), c);
        assert(a.drop_last().push(c[0]) =~= a);
    }
}

// ---- selecting

/// Visual mode starts with the character at the cursor selected.
pub proof fn law_visual_in_line(l: CmdLineView, a: Seq<char>, b: Seq<char>)
    requires
        stands(l, a, b),
        strings::utf8_len(l.input) <= usize::MAX,
    ensures
        ({
            let m = l.in_visual();
            &&& m.mode is Visual
            &&& m.selection is Some
            &&& (m.selection->0).0 == strings::utf8_len(a)
            &&& (m.selection->0).1 == strings::utf8_len(if b.len() > 0 {
                a.push(b[0])
            } else {
                a
            })
            &&& m.input == l.input && m.cursor == l.cursor && m.error == l.error
        }),
{
    lemma_stands(l, a, b);
    if b.len() > 0 {
        law_right_in_line(l, a, b);
        lemma_stands(l.moved_right(), a.push(b[0]), b.skip(1));
    }
}

/// Left moves one end of the selection to where the cursor goes: the end while
/// that is behind the start, else the start. The other one stays.
pub proof fn law_select_left_in_line(l: CmdLineView, a: Seq<char>, b: Seq<char>, p: usize, q: usize)
    requires
        stands(l, a, b),
        a.len() > 0,
        l.selection == Some((p, q)),
        strings::utf8_len(l.input) <= usize::MAX,
    ensures
        ({
            let m = l.selection_moved_left();
            let to = strings::utf8_len(a.drop_last());
            &&& stands(m, a.drop_last(), seq![a.last()] + b)
            &&& m.mode == l.mode
            &&& m.selection is Some
            &&& to > p ==> (m.selection->0).0 == p && (m.selection->0).1 == to
            &&& to <= p ==> (m.selection->0).0 == to && (m.selection->0).1 == q
        }),
{
    law_left_in_line(l, a, b);
    lemma_stands(l.moved_left(), a.drop_last(), seq![a.last()] + b);
}

/// Right moves the start of the selection to where the cursor goes while that
/// is in front of the end; else the end goes on by the character that the
/// cursor comes to, and stops at the end of the line.
pub proof fn law_select_right_in_line(
    l: CmdLineView,
    a: Seq<char>,
    b: Seq<char>,
    p: usize,
    q: usize,
)
    requires
        stands(l, a, b),
        b.len() > 0,
        l.selection == Some((p, q)),
        l.can_stretch(),
        strings::utf8_len(l.input) <= usize::MAX,
    ensures
        ({
            let m = l.selection_moved_right();
            let to = strings::utf8_len(a.push(b[0]));
            &&& stands(m, a.push(b[0]), b.skip(1))
            &&& m.mode == l.mode
            &&& m.selection is Some
            &&& to < q ==> (m.selection->0).0 == to && (m.selection->0).1 == q
            &&& to >= q ==> (m.selection->0).0 == p
            &&& to >= q && b.len() == 1 ==> (m.selection->0).1 == q
            &&& to >= q && b.len() == 2 ==> (m.selection->0).1 == strings::utf8_len(l.input)
            &&& to >= q && b.len() > 2 ==> (m.selection->0).1 == q + strings::width(b[1])
        }),
{
    law_right_in_line(l, a, b);
    let r = l.moved_right();
    lemma_stands(r, a.push(b[0]), b.skip(1));
    if b.len() > 1 {
        law_right_in_line(r, a.push(b[0]), b.skip(1));
        lemma_stands(r.moved_right(), a.push(b[0]).push(b[1]), b.skip(1).skip(1));
    }
}

/// What is yanked is what stands between the ends of the selection.
pub proof fn law_selected_in_line(
    l: CmdLineView,
    a: Seq<char>,
    s: Seq<char>,
    b: Seq<char>,
    p: usize,
    q: usize,
)
    requires
        l.input == a + s + b,
        p == strings::utf8_len(a),
        q == strings::utf8_len(a + s),
    ensures
        l.between((p, q)) == s,
{
    assert(l.input.take(a.len() as int) =~= a);
    assert(l.input.take((a + s).len() as int) =~= a + s);
    strings::lemma_char_at(l.input, a.len() as int);
    strings::lemma_char_at(l.input, (a + s).len() as int);
    assert(l.input.subrange(a.len() as int, (a + s).len() as int) =~= s);
}

/// What is selected is deleted where each of its characters takes one byte:
/// the rest of the line stays, and the cursor stands where it was. Of wider
/// characters one is deleted for each byte, back from the end of the selection.
pub proof fn law_selection_deleted_in_line(
    l: CmdLineView,
    a: Seq<char>,
    s: Seq<char>,
    b: Seq<char>,
    p: usize,
    q: usize,
)
    requires
        !l.error,
        l.input == a + s + b,
        l.selection == Some((p, q)),
        p == strings::utf8_len(a),
        q == strings::utf8_len(a + s),
        q - p <= a.len() + s.len(),
    ensures
        ({
            let m = l.deleted();
            let left = a.len() + s.len() - (q - p);
            &&& m.mode is Normal
            &&& m.selection is None
            &&& stands(m, (a + s).take(left), b)
            &&& q - p == s.len() ==> stands(m, a, b)
        }),
{
    let k = (a + s).len() as int;
    let m = CmdLineView { cursor: q as int, ..l };
    assert(stands(m, a + s, b));
    lemma_stands(m, a + s, b);
    assert(l.input.take(a.len() as int) =~= a);
    strings::lemma_byte_at_ordered(l.input, a.len() as int, k);
    auto_complete::lemma_erased_run(m, k, (q - p) as nat);
    let e = m.erased_times((q - p) as nat);
    let left = k - (q - p);
    assert(l.input.take(left) =~= (a + s).take(left));
    assert(l.input.skip(k) =~= b);
    assert(e.input.take(left) =~= (a + s).take(left));
    assert((a + s).take(a.len() as int) =~= a);
}

/// Without a selection the character in front of the cursor is deleted.
pub proof fn law_deleted_in_line(l: CmdLineView, a: Seq<char>, b: Seq<char>)
    requires
        stands(l, a, b),
        l.selection is None,
    ensures
        a.len() > 0 ==> stands(l.deleted(), a.drop_last(), b),
        a.len() == 0 ==> l.deleted() == l,
        same_state(l, l.deleted()),
{
    law_erased_in_line(l, a, b);
}

/// Completing replaces the word in front of the cursor, back to the last space,
/// by the chosen entry, and the cursor goes behind it.
pub proof fn law_word_completed(
    ac: AutoCompleteView,
    i: usize,
    l: CmdLineView,
    a: Seq<char>,
    w: Seq<char>,
    b: Seq<char>,
)
    requires
        stands(l, a + w, b),
        a.len() == 0 || a.last() == ' ',
        !w.contains(' '),
        ac.selected == Some(i),
    ensures
        stands(ac.completed(l), a + ac.filtered[i as int], b),
        same_state(l, ac.completed(l)),
{
    let s = ac.filtered[i as int];
    lemma_stands(l, a + w, b);
    assert(l.input.take((a + w).len() as int) =~= a + w);
    lemma_tail(a, w);
    lemma_word_out(l, a, w, b);
    law_pasted_in_line(l.erased_times(w.len()), a, b, s);
}

proof fn lemma_tail(a: Seq<char>, w: Seq<char>)
    requires
        a.len() == 0 || a.last() == ' ',
        !w.contains(' '),
    ensures
        auto_complete::tail_len(a + w) == w.len(),
    decreases w.len(),
{
    if w.len() == 0 {
        assert(a + w =~= a);
    } else {
        let v = w.drop_last();
        assert((a + w).drop_last() =~= a + v);
        assert(w.contains(w[w.len() - 1]));
        if v.contains(' ') {
            let k = choose|k: int| 0 <= k < v.len() && v[k] == ' ';
            assert(w[k] == ' ');
        }
        lemma_tail(a, v);
    }
}

proof fn lemma_word_out(l: CmdLineView, a: Seq<char>, w: Seq<char>, b: Seq<char>)
    requires
        stands(l, a + w, b),
    ensures
        stands(l.erased_times(w.len()), a, b),
        same_state(l, l.erased_times(w.len())),
{
    lemma_erased_part(l, a, w, b, w.len());
    assert(a + w.take(0) =~= a);
}

proof fn lemma_erased_part(l: CmdLineView, a: Seq<char>, w: Seq<char>, b: Seq<char>, n: nat)
    requires
        stands(l, a + w, b),
        n <= w.len(),
    ensures
        stands(l.erased_times(n), a + w.take(w.len() - n), b),
        same_state(l, l.erased_times(n)),
    decreases n,
{
    if n == 0 {
        assert(w.take(w.len() as int) =~= w);
    } else {
        lemma_erased_part(l, a, w, b, (n - 1) as nat);
        let c = a + w.take(w.len() - n + 1);
        law_erased_in_line(l.erased_times((n - 1) as nat), c, b);
        assert(c.drop_last() =~= a + w.take(w.len() - n));
    }
}

/// The command line starts empty, in insert mode, and without a view.
pub proof fn law_fresh_line()
    ensures
        stands(CmdLineView::fresh(), Seq::empty(), Seq::empty()),
        CmdLineView::fresh().mode is Insert,
        CmdLineView::fresh().selection is None,
{
    assert(Seq::<char>::empty() + Seq::<char>::empty() =~= Seq::<char>::empty());
}

/// The mode shows in the form of the cursor.
pub proof fn law_styles(a: Mode, b: Mode)
    ensures
        cmd_line::style_of(a) == cmd_line::style_of(b) ==> a == b,
        a is Insert ==> cmd_line::style_of(a) is SteadyBar,
        a is Normal ==> cmd_line::style_of(a) is SteadyBlock,
        a is Visual ==> cmd_line::style_of(a) is SteadyUnderScore,
{
}

} // verus!
