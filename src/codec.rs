//! The two files of a record.
//!
//! `data`: the name on the first line, the note after it. Reading joins the
//! note's lines with nothing between them, so line breaks inside a note do
//! not survive a round trip.
//!
//! `header`: four lines `Diag: <v>`, `DE: <v>`, `DS: <v>`, `ND: <v>`.
//! Reading goes by label, not by position: a field takes the value of the
//! last line that starts with its label, and a field with no such line is
//! empty, so a short or damaged file still reads.
use vstd::prelude::*;
use crate::text::{
    concat, ends_with_cr, has_prefix, lemma_lines_single, lemma_lines_split, lines, push_char,
    single_line, split_lines, starts_with_str, strip_cr,
};

verus! {

/// The contents of a `data` file for `name` and `note`.
pub open spec fn data_text(name: Seq<char>, note: Seq<char>) -> Seq<char> {
    name + seq!['\n'] + note
}

/// The name that a `data` file holds: its first line, if it has one.
pub open spec fn decoded_name(c: Seq<char>) -> Option<Seq<char>> {
    let ls = lines(c);
    if ls.len() == 0 {
        None
    } else {
        Some(ls[0])
    }
}

/// The note that a `data` file holds: its other lines, joined.
pub open spec fn decoded_note(c: Seq<char>) -> Seq<char> {
    let ls = lines(c);
    if ls.len() == 0 {
        Seq::empty()
    } else {
        concat(ls.drop_first())
    }
}

pub open spec fn opt_view(o: Option<String>) -> Option<Seq<char>> {
    match o {
        Some(s) => Some(s@),
        None => None,
    }
}

pub open spec fn views(v: Seq<String>) -> Seq<Seq<char>> {
    v.map_values(|s: String| s@)
}

/// The contents of a `data` file for `name` and `note`.
pub fn encode_data(name: &str, note: &str) -> (r: String)
    ensures
        r@ == data_text(name@, note@),
{
    let mut s = String::from_str(name);
    push_char(&mut s, '\n');
    s.append(note);
    s
}

/// The lines of `ls` from the `from`-th on, joined.
fn join_from(ls: &Vec<String>, from: usize) -> (r: String)
    requires
        from <= ls.len(),
    ensures
        r@ == concat(views(ls@).subrange(from as int, ls.len() as int)),
{
    let mut acc = String::new();
    let mut j: usize = from;
    proof {
        assert(views(ls@).subrange(from as int, from as int) =~= Seq::<Seq<char>>::empty());
    }
    while j < ls.len()
        invariant
            from <= j <= ls.len(),
            acc@ == concat(views(ls@).subrange(from as int, j as int)),
        decreases ls.len() - j,
    {
        proof {
            assert(views(ls@).subrange(from as int, j + 1).drop_last() =~= views(ls@).subrange(
                from as int,
                j as int,
            ));
        }
        acc.append(ls[j].as_str());
        j = j + 1;
    }
    acc
}

/// Reads a `data` file: its name, if it has a first line, and its note.
pub fn decode_data(content: &str) -> (r: (Option<String>, String))
    ensures
        opt_view(r.0) == decoded_name(content@),
        r.1@ == decoded_note(content@),
{
    let ls = split_lines(content);
    proof {
        assert(views(ls@) =~= lines(content@));
    }
    if ls.len() == 0 {
        (None, String::new())
    } else {
        let note = join_from(&ls, 1);
        proof {
            assert(views(ls@).subrange(1, ls.len() as int) =~= lines(content@).drop_first());
        }
        (Some(ls[0].clone()), note)
    }
}

/// A name and a note survive a round trip through a `data` file, but for
/// the line breaks of the note: what is read back is the note's lines
/// joined with nothing between them.
pub proof fn lemma_data_round_trip(name: Seq<char>, note: Seq<char>)
    requires
        single_line(name),
        !ends_with_cr(name),
    ensures
        decoded_name(data_text(name, note)) == Some(name),
        decoded_note(data_text(name, note)) == concat(lines(note)),
{
    lemma_lines_split(name, note);
    assert((seq![name] + lines(note)).drop_first() =~= lines(note));
}

/// A note without line feeds comes back unchanged.
pub proof fn lemma_single_line_note_round_trip(name: Seq<char>, note: Seq<char>)
    requires
        single_line(name),
        !ends_with_cr(name),
        single_line(note),
    ensures
        decoded_name(data_text(name, note)) == Some(name),
        decoded_note(data_text(name, note)) == note,
{
    lemma_data_round_trip(name, note);
    lemma_lines_single(note);
}

/// The four structured fields of a record.
#[derive(Clone, Debug, PartialEq, Eq)]
pub struct Header {
    pub diagnosis: String,
    pub de: String,
    pub ds: String,
    pub nd: String,
}

impl View for Header {
    type V = (Seq<char>, Seq<char>, Seq<char>, Seq<char>);

    open spec fn view(&self) -> Self::V {
        (self.diagnosis@, self.de@, self.ds@, self.nd@)
    }
}

impl Header {
    pub fn new(diagnosis: String, de: String, ds: String, nd: String) -> (r: Header)
        ensures
            r@ == (diagnosis@, de@, ds@, nd@),
    {
        Header { diagnosis, de, ds, nd }
    }

    /// The header of a record whose fields were never saved.
    pub fn empty() -> (r: Header)
        ensures
            r@ == (Seq::<char>::empty(), Seq::<char>::empty(), Seq::<char>::empty(), Seq::<
                char,
            >::empty()),
    {
        Header { diagnosis: String::new(), de: String::new(), ds: String::new(), nd: String::new() }
    }
}

pub open spec fn diag_label() -> Seq<char> {
    seq!['D', 'i', 'a', 'g', ':', ' ']
}

pub open spec fn de_label() -> Seq<char> {
    seq!['D', 'E', ':', ' ']
}

pub open spec fn ds_label() -> Seq<char> {
    seq!['D', 'S', ':', ' ']
}

pub open spec fn nd_label() -> Seq<char> {
    seq!['N', 'D', ':', ' ']
}

/// The contents of a `header` file.
pub open spec fn header_text(h: (Seq<char>, Seq<char>, Seq<char>, Seq<char>)) -> Seq<char> {
    diag_label() + h.0 + seq!['\n'] + (de_label() + h.1 + seq!['\n'] + (ds_label() + h.2
        + seq!['\n'] + (nd_label() + h.3 + seq!['\n'] + Seq::empty())))
}

/// The value of the last of `ls` that starts with `label`, or empty.
pub open spec fn field(ls: Seq<Seq<char>>, label: Seq<char>) -> Seq<char>
    decreases ls.len(),
{
    if ls.len() == 0 {
        Seq::empty()
    } else if has_prefix(ls.last(), label) {
        ls.last().subrange(label.len() as int, ls.last().len() as int)
    } else {
        field(ls.drop_last(), label)
    }
}

/// The fields that a `header` file holds.
pub open spec fn decoded_header(c: Seq<char>) -> (Seq<char>, Seq<char>, Seq<char>, Seq<char>) {
    let ls = lines(c);
    (field(ls, diag_label()), field(ls, de_label()), field(ls, ds_label()), field(ls, nd_label()))
}

/// Whether a value can stand on a header line and read back unchanged.
pub open spec fn header_value(v: Seq<char>) -> bool {
    single_line(v) && !ends_with_cr(v)
}

fn push_line(s: &mut String, label: &str, value: &str)
    ensures
        final(s)@ == old(s)@ + label@ + value@ + seq!['\n'],
{
    s.append(label);
    s.append(value);
    push_char(s, '\n');
}

/// The contents of a `header` file for `h`.
pub fn encode_header(h: &Header) -> (r: String)
    ensures
        r@ == header_text(h@),
{
    let mut s = String::new();
    let diag = "Diag: ";
    let de = "DE: ";
    let ds = "DS: ";
    let nd = "ND: ";
    proof {
        reveal_strlit("Diag: ");
        reveal_strlit("DE: ");
        reveal_strlit("DS: ");
        reveal_strlit("ND: ");
        assert(diag@ =~= diag_label());
        assert(de@ =~= de_label());
        assert(ds@ =~= ds_label());
        assert(nd@ =~= nd_label());
    }
    push_line(&mut s, diag, h.diagnosis.as_str());
    push_line(&mut s, de, h.de.as_str());
    push_line(&mut s, ds, h.ds.as_str());
    push_line(&mut s, nd, h.nd.as_str());
    assert(s@ =~= header_text(h@));
    s
}

/// The value of the last of `ls` that starts with `label`, or empty.
fn field_value(ls: &Vec<String>, label: &str) -> (r: String)
    ensures
        r@ == field(views(ls@), label@),
{
    let mut val = String::new();
    let mut i: usize = 0;
    let m = label.unicode_len();
    proof {
        assert(views(ls@).subrange(0, 0) =~= Seq::<Seq<char>>::empty());
    }
    while i < ls.len()
        invariant
            i <= ls.len(),
            m == label@.len(),
            val@ == field(views(ls@).subrange(0, i as int), label@),
        decreases ls.len() - i,
    {
        proof {
            assert(views(ls@).subrange(0, i + 1).drop_last() =~= views(ls@).subrange(0, i as int));
        }
        let line = ls[i].as_str();
        if starts_with_str(line, label) {
            val = String::from_str(line.substring_char(m, line.unicode_len()));
        }
        i = i + 1;
    }
    proof {
        assert(views(ls@).subrange(0, ls.len() as int) =~= views(ls@));
    }
    val
}

/// Reads a `header` file. Never fails: a field without its line is empty.
pub fn decode_header(content: &str) -> (r: Header)
    ensures
        r@ == decoded_header(content@),
{
    let ls = split_lines(content);
    proof {
        assert(views(ls@) =~= lines(content@));
        reveal_strlit("Diag: ");
        reveal_strlit("DE: ");
        reveal_strlit("DS: ");
        reveal_strlit("ND: ");
        assert("Diag: "@ =~= diag_label());
        assert("DE: "@ =~= de_label());
        assert("DS: "@ =~= ds_label());
        assert("ND: "@ =~= nd_label());
    }
    let diagnosis = field_value(&ls, "Diag: ");
    let de = field_value(&ls, "DE: ");
    let ds = field_value(&ls, "DS: ");
    let nd = field_value(&ls, "ND: ");
    Header { diagnosis, de, ds, nd }
}

proof fn lemma_labelled_line(label: Seq<char>, v: Seq<char>)
    requires
        single_line(label),
        label.len() > 0,
        label.last() == ' ',
        header_value(v),
    ensures
        single_line(label + v),
        strip_cr(label + v) == label + v,
        has_prefix(label + v, label),
        (label + v).subrange(label.len() as int, (label + v).len() as int) == v,
{
    let l = label + v;
    assert forall|i: int| 0 <= i < l.len() implies l[i] != '\n' by {
        if i >= label.len() {
            assert(l[i] == v[i - label.len()]);
        }
    }
    if v.len() > 0 {
        assert(l.last() == v.last());
    }
    assert(l.subrange(0, label.len() as int) =~= label);
    assert(l.subrange(label.len() as int, l.len() as int) =~= v);
}

/// Four field values that hold no line break and end with no carriage
/// return survive a round trip through a `header` file.
pub proof fn lemma_header_round_trip(h: (Seq<char>, Seq<char>, Seq<char>, Seq<char>))
    requires
        header_value(h.0),
        header_value(h.1),
        header_value(h.2),
        header_value(h.3),
    ensures
        decoded_header(header_text(h)) == h,
{
    let l1 = diag_label() + h.0;
    let l2 = de_label() + h.1;
    let l3 = ds_label() + h.2;
    let l4 = nd_label() + h.3;
    lemma_labelled_line(diag_label(), h.0);
    lemma_labelled_line(de_label(), h.1);
    lemma_labelled_line(ds_label(), h.2);
    lemma_labelled_line(nd_label(), h.3);
    let e = Seq::<char>::empty();
    lemma_lines_single(e);
    lemma_lines_split(l4, e);
    lemma_lines_split(l3, l4 + seq!['\n'] + e);
    lemma_lines_split(l2, l3 + seq!['\n'] + (l4 + seq!['\n'] + e));
    lemma_lines_split(l1, l2 + seq!['\n'] + (l3 + seq!['\n'] + (l4 + seq!['\n'] + e)));
    let ls = lines(header_text(h));
    assert(ls =~= seq![l1, l2, l3, l4]);
    // Each label differs from the other lines within its own length.
    assert(l4[0] != diag_label()[0]);
    assert(l3[1] != diag_label()[1]);
    assert(l2[1] != diag_label()[1]);
    assert(l4[0] != de_label()[0]);
    assert(l3[1] != de_label()[1]);
    assert(l4[0] != ds_label()[0]);
    assert(!has_prefix(l4, diag_label())) by {
        if l4.len() >= 6 {
            assert(l4.subrange(0, 6)[0] != diag_label()[0]);
        }
    }
    assert(!has_prefix(l3, diag_label())) by {
        if l3.len() >= 6 {
            assert(l3.subrange(0, 6)[1] != diag_label()[1]);
        }
    }
    assert(!has_prefix(l2, diag_label())) by {
        if l2.len() >= 6 {
            assert(l2.subrange(0, 6)[1] != diag_label()[1]);
        }
    }
    assert(!has_prefix(l4, de_label())) by {
        if l4.len() >= 4 {
            assert(l4.subrange(0, 4)[0] != de_label()[0]);
        }
    }
    assert(!has_prefix(l3, de_label())) by {
        if l3.len() >= 4 {
            assert(l3.subrange(0, 4)[1] != de_label()[1]);
        }
    }
    assert(!has_prefix(l4, ds_label())) by {
        if l4.len() >= 4 {
            assert(l4.subrange(0, 4)[0] != ds_label()[0]);
        }
    }
    assert(ls.drop_last() =~= seq![l1, l2, l3]);
    assert(ls.drop_last().drop_last() =~= seq![l1, l2]);
    assert(ls.drop_last().drop_last().drop_last() =~= seq![l1]);
    assert(field(ls, nd_label()) == h.3);
    assert(field(ls.drop_last(), ds_label()) == h.2);
    assert(field(ls, ds_label()) == h.2);
    assert(field(ls.drop_last().drop_last(), de_label()) == h.1);
    assert(field(ls.drop_last(), de_label()) == h.1);
    assert(field(ls, de_label()) == h.1);
    assert(field(ls.drop_last().drop_last().drop_last(), diag_label()) == h.0);
    assert(field(ls.drop_last().drop_last(), diag_label()) == h.0);
    assert(field(ls.drop_last(), diag_label()) == h.0);
    assert(field(ls, diag_label()) == h.0);
}

} // verus!
