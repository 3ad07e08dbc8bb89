use vstd::prelude::*;
use vstd::std_specs::iter::IteratorSpec;

verus! {

broadcast use vstd::string::axiom_spec_iter, vstd::string::next_postcondition;

/// The displayed width of a character in columns, `None` for a control character.
pub uninterp spec fn char_width_of(c: char) -> Option<usize>;

/// Relies on `unicode_width::UnicodeWidthChar::width` for `char`: the displayed width of
/// a character in columns (at most 3 in its tables), `None` for the control characters
/// U+0000 to U+001F and U+007F to U+009F, 1 for the rest of ASCII.
#[verifier::external_body]
fn char_width(c: char) -> (r: Option<usize>)
    ensures
        r == char_width_of(c),
        r matches Some(w) ==> w <= 3,
        ('\u{20}' <= c && c < '\u{7F}') ==> r == Some(1usize),
        (c < '\u{20}' || ('\u{7F}' <= c && c < '\u{A0}')) ==> r is None,
{
    unicode_width::UnicodeWidthChar::width(c)
}

/// Relies on `String::push`: appends one character.
#[verifier::external_body]
pub(crate) fn push_char(s: &mut String, c: char)
    ensures
        final(s)@ == old(s)@.push(c),
{
    s.push(c)
}

/// The columns that a character of width `w` takes; a control character takes none.
pub open spec fn columns(w: Option<usize>) -> int {
    match w {
        Some(w) => w as int,
        None => 0,
    }
}

/// How many of the leading widths of `ws` fit, one after the other, in `max` columns of
/// which `used` are taken; counting stops at the first that does not fit.
pub open spec fn fit_count(ws: Seq<Option<usize>>, used: int, max: int) -> nat
    decreases ws.len(),
{
    if ws.len() == 0 {
        0
    } else if used + columns(ws[0]) > max {
        0
    } else {
        1 + fit_count(ws.drop_first(), used + columns(ws[0]), max)
    }
}

/// The widths of the characters of `s`.
pub open spec fn widths_of(s: Seq<char>) -> Seq<Option<usize>> {
    s.map_values(|c: char| char_width_of(c))
}

/// The number of leading characters, of the given widths, that fit in `max_width` columns.
pub fn fit_prefix_len(widths: &Vec<Option<usize>>, max_width: u16) -> (k: usize)
    requires
        forall|i: int| 0 <= i < widths@.len() ==> columns(#[trigger] widths@[i]) <= 3,
    ensures
        k == fit_count(widths@, 0, max_width as int),
{
    let n = widths.len();
    let mut used: u32 = 0;
    let mut k: usize = 0;
    assert(widths@.subrange(0, n as int) =~= widths@);
    while k < n
        invariant
            n == widths@.len(),
            k <= n,
            used <= max_width,
            forall|i: int| 0 <= i < widths@.len() ==> columns(#[trigger] widths@[i]) <= 3,
            fit_count(widths@, 0, max_width as int) == k + fit_count(
                widths@.subrange(k as int, n as int),
                used as int,
                max_width as int,
            ),
        decreases n - k,
    {
        let ghost rest = widths@.subrange(k as int, n as int);
        assert(rest.drop_first() =~= widths@.subrange(k + 1, n as int));
        assert(rest[0] == widths@[k as int]);
        let w: u32 = match widths[k] {
            Some(w) => w as u32,
            None => 0,
        };
        if used + w > max_width as u32 {
            return k;
        }
        used = used + w;
        k = k + 1;
    }
    k
}

/// The longest prefix of `text` whose characters fit in `max_width` columns; empty where
/// `max_width` is 0.
pub fn truncate_to_width(text: &str, max_width: u16) -> (r: String)
    ensures
        r@ == if max_width == 0 {
            Seq::<char>::empty()
        } else {
            text@.subrange(0, fit_count(widths_of(text@), 0, max_width as int) as int)
        },
{
    if max_width == 0 {
        return String::new();
    }
    let ghost cs = text@;
    let mut chars = text.chars();
    let mut all: Vec<char> = Vec::new();
    let mut widths: Vec<Option<usize>> = Vec::new();
    loop
        invariant
            chars.obeys_prophetic_iter_laws(),
            all@.len() <= cs.len(),
            all@ == cs.subrange(0, all@.len() as int),
            IteratorSpec::remaining(&chars) == cs.subrange(all@.len() as int, cs.len() as int),
            widths@.len() == all@.len(),
            forall|i: int| 0 <= i < widths@.len() ==> #[trigger] widths@[i] == char_width_of(cs[i]),
            forall|i: int| 0 <= i < widths@.len() ==> columns(#[trigger] widths@[i]) <= 3,
        ensures
            all@ == cs,
            widths@.len() == all@.len(),
            forall|i: int| 0 <= i < widths@.len() ==> #[trigger] widths@[i] == char_width_of(cs[i]),
            forall|i: int| 0 <= i < widths@.len() ==> columns(#[trigger] widths@[i]) <= 3,
        decreases cs.len() - all@.len(),
    {
        match chars.next() {
            Some(c) => {
                let w = char_width(c);
                all.push(c);
                widths.push(w);
                assert(all@ =~= cs.subrange(0, all@.len() as int));
            },
            None => {
                assert(all@ =~= cs);
                break;
            },
        }
    }
    assert(widths@ =~= widths_of(cs));
    let k = fit_prefix_len(&widths, max_width);
    proof {
        lemma_fit_count_le(widths@, 0, max_width as int);
    }
    let mut out = String::new();
    let mut i: usize = 0;
    while i < k
        invariant
            k <= all@.len(),
            i <= k,
            out@ == all@.subrange(0, i as int),
        decreases k - i,
    {
        push_char(&mut out, all[i]);
        i = i + 1;
        assert(out@ =~= all@.subrange(0, i as int));
    }
    out
}

proof fn lemma_fit_count_le(ws: Seq<Option<usize>>, used: int, max: int)
    ensures
        fit_count(ws, used, max) <= ws.len(),
    decreases ws.len(),
{
    if ws.len() > 0 {
        lemma_fit_count_le(ws.drop_first(), used + columns(ws[0]), max);
    }
}

} // verus!
