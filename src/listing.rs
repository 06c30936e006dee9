use vstd::prelude::*;
use vstd::utf8::{decode_utf8, valid_utf8};
use crate::inventory::Inventory;
use crate::text::{chars_of, line_spans, lines, pieces, spans_within, word_spans, words};

verus! {

/// The package database's status codes of an installed package: installed
/// (`ii`), and installed and held (`hi`).
pub open spec fn is_installed_status(f: Seq<char>) -> bool {
    f == seq!['i', 'i'] || f == seq!['h', 'i']
}

/// What one listing line contributes: its second and third fields, when it
/// has at least three and the first is an installed status.
pub open spec fn line_entry(line: Seq<char>) -> Option<(Seq<char>, Seq<char>)> {
    let f = words(line);
    if f.len() >= 3 && is_installed_status(f[0]) {
        Some((f[1], f[2]))
    } else {
        None
    }
}

/// The entries of the given lines, a later line's version winning.
pub open spec fn lines_entries(ls: Seq<Seq<char>>) -> Map<Seq<char>, Seq<char>>
    decreases ls.len(),
{
    if ls.len() == 0 {
        Map::empty()
    } else {
        let m = lines_entries(ls.drop_last());
        match line_entry(ls.last()) {
            Some(e) => m.insert(e.0, e.1),
            None => m,
        }
    }
}

/// The installed packages that a package listing names, with their versions.
pub open spec fn listing(t: Seq<char>) -> Map<Seq<char>, Seq<char>> {
    lines_entries(lines(t))
}

fn is_installed_field(t: &Vec<char>, span: (usize, usize)) -> (r: bool)
    requires
        span.0 <= span.1 <= t@.len(),
    ensures
        r == is_installed_status(t@.subrange(span.0 as int, span.1 as int)),
{
    let ghost f = t@.subrange(span.0 as int, span.1 as int);
    if span.1 - span.0 != 2 {
        assert(f.len() != 2);
        return false;
    }
    let (a, b) = (t[span.0], t[span.0 + 1]);
    assert(f[0] == a && f[1] == b);
    let r = (a == 'i' || a == 'h') && b == 'i';
    if r {
        if a == 'i' {
            assert(f =~= seq!['i', 'i']);
        } else {
            assert(f =~= seq!['h', 'i']);
        }
    }
    r
}

/// Reads the package listing `text`: one entry for each line whose first
/// field is an installed status and which has at least three fields.
pub fn parse_listing(text: &str) -> (r: Inventory)
    ensures
        r.wf(),
        r@ == listing(text@),
{
    let t = chars_of(text);
    let spans = line_spans(&t);
    let ghost ls = lines(t@);
    let mut r = Inventory::new();
    let mut i: usize = 0;
    assert(ls.subrange(0, 0) =~= Seq::<Seq<char>>::empty());
    while i < spans.len()
        invariant
            t@ == text@,
            ls == lines(t@),
            pieces(t@, spans@) == ls,
            spans_within(spans@, 0, t@.len() as int),
            i <= spans@.len(),
            r.wf(),
            r@ == lines_entries(ls.subrange(0, i as int)),
        decreases spans.len() - i,
    {
        let (from, to) = spans[i];
        assert(ls[i as int] == t@.subrange(from as int, to as int));
        let fields = word_spans(&t, from, to);
        let ghost f = words(ls[i as int]);
        assert(ls.subrange(0, i + 1).drop_last() =~= ls.subrange(0, i as int));
        assert(ls.subrange(0, i + 1).last() == ls[i as int]);
        if fields.len() >= 3 && is_installed_field(&t, fields[0]) {
            assert(f[0] == t@.subrange(fields[0].0 as int, fields[0].1 as int));
            let name = text.substring_char(fields[1].0, fields[1].1).to_owned();
            let version = text.substring_char(fields[2].0, fields[2].1).to_owned();
            assert(name@ == f[1]);
            assert(version@ == f[2]);
            r.insert(name, version);
        } else {
            assert(fields.len() >= 3 ==> f[0] == t@.subrange(
                fields[0].0 as int,
                fields[0].1 as int,
            ));
        }
        i = i + 1;
    }
    assert(ls.subrange(0, i as int) =~= ls);
    r
}

/// Relies on `String::from_utf8`: it accepts exactly the well-formed UTF-8
/// byte strings and decodes them.
#[verifier::external_body]
fn decode_text(bytes: Vec<u8>) -> (r: Option<String>)
    ensures
        r is Some <==> valid_utf8(bytes@),
        r is Some ==> r->0@ == decode_utf8(bytes@),
{
    String::from_utf8(bytes).ok()
}

/// Reads the listing's raw output: `None` when it is not UTF-8 text.
pub fn parse_listing_bytes(output: Vec<u8>) -> (r: Option<Inventory>)
    ensures
        r is Some <==> valid_utf8(output@),
        r is Some ==> r->0.wf() && r->0@ == listing(decode_utf8(output@)),
{
    match decode_text(output) {
        Some(text) => Some(parse_listing(text.as_str())),
        None => None,
    }
}

} // verus!
