use vstd::prelude::*;
use vstd::string::{StrSliceExecFns, StringExecFns};
use unicode_segmentation::UnicodeSegmentation;
use crate::hop::{ReplaceRange, Response};
use crate::selection::{Sel, sel_text};
use crate::text::{decimal, push_char, push_decimal};
use crate::trie::views;

verus! {

/// The extended grapheme clusters of a text, in order.
pub uninterp spec fn extended_graphemes(s: Seq<char>) -> Seq<Seq<char>>;

/// Relies on unicode_segmentation's `UnicodeSegmentation::graphemes` with
/// extended clusters: what it yields depends on the text alone.
#[verifier::external_body]
fn graphemes_of(s: &str) -> (r: Vec<String>)
    ensures
        views(r@) == extended_graphemes(s@),
{
    s.graphemes(true).map(|g| g.to_owned()).collect()
}

/// The texts one after the other.
pub open spec fn concat(ws: Seq<Seq<char>>) -> Seq<char>
    decreases ws.len(),
{
    if ws.len() == 0 {
        Seq::empty()
    } else {
        concat(ws.drop_last()) + ws.last()
    }
}

/// How many clusters of a label are shown: no more than the selection is
/// wide.
pub open spec fn shown_len(sel: Sel, clusters: nat) -> nat {
    let width = sel.end.col - sel.start.col + 1;
    if clusters <= width {
        clusters
    } else {
        width as nat
    }
}

/// The entry for the first cluster shown, `n` clusters being shown.
pub open spec fn head_mark(sel: Sel, n: nat, head: Seq<char>) -> Seq<char> {
    decimal(sel.start.line as nat) + seq!['.'] + decimal((sel.end.col - n + 1) as nat)
        + "+1|{hop_label_head}"@ + head + seq![' ']
}

/// The entry for the other clusters shown, `n` clusters being shown.
pub open spec fn tail_mark(sel: Sel, n: nat, tail: Seq<char>) -> Seq<char> {
    decimal(sel.start.line as nat) + seq!['.'] + decimal((sel.end.col - n + 2) as nat) + seq!['+']
        + decimal((n - 1) as nat) + "|{hop_label_tail}"@ + tail + seq![' ']
}

/// The highlighter entries for one label over its selection, ending where the
/// selection ends: the first cluster, then the rest, each with its face.
pub open spec fn range_marks(sel: Sel, g: Seq<Seq<char>>) -> Seq<char> {
    let n = shown_len(sel, g.len());
    if n == 0 {
        Seq::empty()
    } else {
        let tail = concat(g.subrange(1, n as int));
        head_mark(sel, n, g[0]) + if tail.len() == 0 {
            Seq::empty()
        } else {
            tail_mark(sel, n, tail)
        }
    }
}

/// The highlighter entries of all the ranges, in order.
pub open spec fn ranges_marks(rs: Seq<ReplaceRange>) -> Seq<char>
    decreases rs.len(),
{
    if rs.len() == 0 {
        Seq::empty()
    } else {
        ranges_marks(rs.drop_last()) + range_marks(
            rs.last().sel,
            extended_graphemes(rs.last().label@),
        )
    }
}

/// Appends the texts of `ws[from..to]` to `s`.
fn push_all(s: &mut String, ws: &Vec<String>, from: usize, to: usize)
    requires
        from <= to <= ws@.len(),
    ensures
        final(s)@ == old(s)@ + concat(views(ws@).subrange(from as int, to as int)),
{
    let mut i = from;
    while i < to
        invariant
            from <= i <= to,
            to <= ws@.len(),
            s@ == old(s)@ + concat(views(ws@).subrange(from as int, i as int)),
        decreases to - i,
    {
        s.append(ws[i].as_str());
        assert(views(ws@).subrange(from as int, i + 1).drop_last() =~= views(ws@).subrange(
            from as int,
            i as int,
        ));
        i = i + 1;
    }
}

/// Appends the entry for the first cluster shown.
fn push_head_mark(out: &mut String, sel: Sel, n: usize, head: &str)
    requires
        1 <= n <= sel.end.col + 1,
    ensures
        final(out)@ == old(out)@ + head_mark(sel, n as nat, head@),
{
    let ghost before = out@;
    push_decimal(out, sel.start.line);
    push_char(out, '.');
    push_decimal(out, sel.end.col - (n - 1));
    out.append("+1|{hop_label_head}");
    out.append(head);
    push_char(out, ' ');
    assert(out@ =~= before + head_mark(sel, n as nat, head@));
}

/// Appends the entry for the other clusters shown.
fn push_tail_mark(out: &mut String, sel: Sel, n: usize, tail: &str)
    requires
        2 <= n <= sel.end.col + 1,
    ensures
        final(out)@ == old(out)@ + tail_mark(sel, n as nat, tail@),
{
    let ghost before = out@;
    push_decimal(out, sel.start.line);
    push_char(out, '.');
    push_decimal(out, sel.end.col - (n - 2));
    push_char(out, '+');
    push_decimal(out, n - 1);
    out.append("|{hop_label_tail}");
    out.append(tail);
    push_char(out, ' ');
    assert(out@ =~= before + tail_mark(sel, n as nat, tail@));
}

/// Appends the highlighter entries for a label, given by its clusters, over
/// its selection.
pub fn push_marks(out: &mut String, sel: Sel, g: &Vec<String>)
    requires
        sel.start.col <= sel.end.col,
    ensures
        final(out)@ == old(out)@ + range_marks(sel, views(g@)),
{
    let ghost gv = views(g@);
    let diff = sel.end.col - sel.start.col;
    let n = if g.len() <= diff {
        g.len()
    } else {
        diff + 1
    };
    assert(n == shown_len(sel, g@.len()));
    if n > 0 {
        assert(gv[0] == g@[0]@);
        push_head_mark(out, sel, n, g[0].as_str());
        let mut tail = String::new();
        push_all(&mut tail, g, 1, n);
        assert(tail@ =~= concat(gv.subrange(1, n as int)));
        if tail.as_str().unicode_len() > 0 {
            if n < 2 {
                assert(gv.subrange(1, n as int) =~= Seq::<Seq<char>>::empty());
            }
            push_tail_mark(out, sel, n, tail.as_str());
        }
    }
}

/// The texts with one space between each two.
pub open spec fn joined(ws: Seq<Seq<char>>) -> Seq<char>
    decreases ws.len(),
{
    if ws.len() == 0 {
        Seq::empty()
    } else if ws.len() == 1 {
        ws[0]
    } else {
        joined(ws.drop_last()) + seq![' '] + ws.last()
    }
}

/// The selections of the ranges, each written out.
pub open spec fn sel_texts(rs: Seq<ReplaceRange>) -> Seq<Seq<char>> {
    rs.map_values(|r: ReplaceRange| sel_text(r.sel))
}

/// The labels of the ranges.
pub open spec fn label_texts(rs: Seq<ReplaceRange>) -> Seq<Seq<char>> {
    rs.map_values(|r: ReplaceRange| r.label@)
}

/// Appends the selections of the ranges, written out, one space between
/// each two.
fn push_sels(out: &mut String, rs: &[ReplaceRange])
    ensures
        final(out)@ == old(out)@ + joined(sel_texts(rs@)),
{
    let ghost start = out@;
    let mut i: usize = 0;
    while i < rs.len()
        invariant
            i <= rs@.len(),
            out@ == start + joined(sel_texts(rs@.take(i as int))),
        decreases rs@.len() - i,
    {
        if i > 0 {
            push_char(out, ' ');
        }
        let text = rs[i].sel.to_str();
        out.append(text.as_str());
        proof {
            let w = sel_texts(rs@.take(i + 1));
            assert(w.drop_last() =~= sel_texts(rs@.take(i as int)));
            assert(w.last() == sel_text(rs@[i as int].sel));
            assert(out@ =~= start + joined(w));
        }
        i = i + 1;
    }
    assert(rs@.take(rs@.len() as int) =~= rs@);
}

/// Appends the labels of the ranges, one space between each two.
fn push_labels(out: &mut String, rs: &[ReplaceRange])
    ensures
        final(out)@ == old(out)@ + joined(label_texts(rs@)),
{
    let ghost start = out@;
    let mut i: usize = 0;
    while i < rs.len()
        invariant
            i <= rs@.len(),
            out@ == start + joined(label_texts(rs@.take(i as int))),
        decreases rs@.len() - i,
    {
        if i > 0 {
            push_char(out, ' ');
        }
        out.append(rs[i].label.as_str());
        proof {
            let w = label_texts(rs@.take(i + 1));
            assert(w.drop_last() =~= label_texts(rs@.take(i as int)));
            assert(w.last() == rs@[i as int].label@);
            assert(out@ =~= start + joined(w));
        }
        i = i + 1;
    }
    assert(rs@.take(rs@.len() as int) =~= rs@);
}

impl Response {
    /// The command that makes the selections of the ranges the new ones,
    /// through the `^` register; each selection is followed by a space.
    pub fn new_sels_command(replace_ranges: &[ReplaceRange]) -> (r: String)
        ensures
            r@ == "set-register ^ \"%val{buffile}@%val{timestamp}@0\" "@ + joined(
                sel_texts(replace_ranges@),
            ) + if replace_ranges@.len() > 0 {
                seq![' ']
            } else {
                Seq::empty()
            },
    {
        let mut out = String::new();
        out.append("set-register ^ \"%val{buffile}@%val{timestamp}@0\" ");
        push_sels(&mut out, replace_ranges);
        let ghost before = out@;
        if replace_ranges.len() > 0 {
            push_char(&mut out, ' ');
        }
        assert(out@ =~= before + if replace_ranges@.len() > 0 {
            seq![' ']
        } else {
            Seq::<char>::empty()
        });
        out
    }

    /// The command that hands the next typed key, with the selections and
    /// labels that are left, back to the program at `bin`.
    pub fn reduce_callback_command(replace_ranges: &[ReplaceRange], bin: &str) -> (r: String)
        ensures
            r@ == "on-key 'evaluate-commands -save-regs ^ -no-hooks -- %sh{ "@ + bin@
                + " --sels \""@ + joined(sel_texts(replace_ranges@)) + "\" --labels \""@ + joined(
                label_texts(replace_ranges@),
            ) + "\" --key $kak_key }'"@,
    {
        let mut out = String::new();
        out.append("on-key 'evaluate-commands -save-regs ^ -no-hooks -- %sh{ ");
        out.append(bin);
        out.append(" --sels \"");
        push_sels(&mut out, replace_ranges);
        out.append("\" --labels \"");
        push_labels(&mut out, replace_ranges);
        out.append("\" --key $kak_key }'");
        out
    }

    /// The command that shows the labels over their selections.
    pub fn replace_ranges_command(replace_ranges: &[ReplaceRange]) -> (r: String)
        requires
            forall|i: int|
                0 <= i < replace_ranges@.len() ==> (#[trigger] replace_ranges@[i]).sel.start.col
                    <= replace_ranges@[i].sel.end.col,
        ensures
            r@ == "set-option window hop_ranges %val{timestamp} "@ + ranges_marks(replace_ranges@),
    {
        let mut out = String::new();
        out.append("set-option window hop_ranges %val{timestamp} ");
        let ghost start = out@;
        let mut i: usize = 0;
        while i < replace_ranges.len()
            invariant
                i <= replace_ranges@.len(),
                forall|k: int|
                    0 <= k < replace_ranges@.len() ==> (#[trigger] replace_ranges@[k]).sel.start.col
                        <= replace_ranges@[k].sel.end.col,
                out@ == start + ranges_marks(replace_ranges@.take(i as int)),
            decreases replace_ranges@.len() - i,
        {
            let range = &replace_ranges[i];
            let sel = range.sel;
            let g = graphemes_of(range.label.as_str());
            let ghost before = out@;
            push_marks(&mut out, sel, &g);
            proof {
                let rs = replace_ranges@.take(i + 1);
                assert(rs.drop_last() =~= replace_ranges@.take(i as int));
                assert(rs.last() == replace_ranges@[i as int]);
                assert(out@ =~= before + range_marks(sel, extended_graphemes(range.label@)));
            }
            i = i + 1;
        }
        assert(replace_ranges@.take(replace_ranges@.len() as int) =~= replace_ranges@);
        out
    }
}

} // verus!
