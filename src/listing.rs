//! The HTML index of a served directory: directories first, then files,
//! each group by the bytes of the names, every directory with a link to its
//! archive.
use vstd::prelude::*;
use vstd::string::StringSliceAdditionalSpecFns;
use crate::order::{SortKey, insertion_sort};
use crate::tar::push_bytes;
use crate::walk::{lemma_lex_total, lemma_lex_trans, lex_le, name_le};

verus! {

/// One entry of a directory index.
#[derive(Clone, Debug)]
pub struct ListingEntry {
    pub name: Vec<u8>,
    pub is_dir: bool,
    pub size: u64,
}

/// An ASCII letter or digit.
pub open spec fn is_alnum(b: u8) -> bool {
    (48 <= b <= 57) || (65 <= b <= 90) || (97 <= b <= 122)
}

/// The uppercase hexadecimal digit for `d < 16`.
pub open spec fn hex_upper(d: u8) -> u8 {
    if d < 10 {
        (48 + d) as u8
    } else {
        (55 + d) as u8
    }
}

/// Percent-encoding with every byte but ASCII letters and digits escaped:
/// such a byte stays, any other becomes `%` and two uppercase hex digits.
pub open spec fn percent_encoded(name: Seq<u8>) -> Seq<u8>
    decreases name.len(),
{
    if name.len() == 0 {
        Seq::empty()
    } else {
        let b = name.last();
        percent_encoded(name.drop_last()) + if is_alnum(b) {
            seq![b]
        } else {
            seq![37u8, hex_upper(b / 16), hex_upper(b % 16)]
        }
    }
}

/// A percent-encoded name holds only ASCII letters, digits and `%`, so it
/// cannot end the attribute or the tag it is written in.
pub proof fn law_url_is_inert(name: Seq<u8>)
    ensures
        forall|i: int| 0 <= i < percent_encoded(name).len() ==> is_alnum(#[trigger] percent_encoded(name)[i]) || percent_encoded(name)[i] == 37,
    decreases name.len(),
{
    if name.len() > 0 {
        law_url_is_inert(name.drop_last());
        let b = name.last();
        let head = percent_encoded(name.drop_last());
        let t = if is_alnum(b) { seq![b] } else { seq![37u8, hex_upper(b / 16), hex_upper(b % 16)] };
        assert forall|i: int| 0 <= i < percent_encoded(name).len() implies is_alnum(#[trigger] percent_encoded(name)[i]) || percent_encoded(name)[i] == 37 by {
            if i < head.len() {
                assert(percent_encoded(name)[i] == head[i]);
            } else {
                assert(percent_encoded(name)[i] == t[i - head.len()]);
            }
        }
    }
}

/// What HTML-escaping a name (read as UTF-8, invalid sequences replaced) gives.
pub uninterp spec fn html_escaped(name: Seq<u8>) -> Seq<u8>;

/// Relies on percent_encoding::percent_encode with NON_ALPHANUMERIC: a byte
/// outside ASCII letters and digits is written as `%` and its two uppercase
/// hex digits, any other byte as itself.
#[verifier::external_body]
fn url_component(name: &[u8]) -> (r: Vec<u8>)
    ensures
        r@ == percent_encoded(name@),
{
    percent_encoding::percent_encode(name, percent_encoding::NON_ALPHANUMERIC).to_string().into_bytes()
}

/// Relies on v_htmlescape::escape_bytes, applied to the name decoded
/// lossily as UTF-8: the result depends on the bytes alone, and its table
/// replaces each of `"`, `'`, `/`, `<` and `>` by an entity, so none is left.
#[verifier::external_body]
fn html_text(name: &[u8]) -> (r: Vec<u8>)
    ensures
        r@ == html_escaped(name@),
        forall|i: int| 0 <= i < r@.len() ==> #[trigger] r@[i] != 34 && r@[i] != 39 && r@[i] != 47
            && r@[i] != 60 && r@[i] != 62,
{
    let mut out: Vec<u8> = Vec::new();
    v_htmlescape::escape_bytes(&String::from_utf8_lossy(name), &mut out);
    out
}

/// `a` is listed before `b`, or in the same place: directories first, then by name.
pub open spec fn listed_before(a: ListingEntry, b: ListingEntry) -> bool {
    (a.is_dir && !b.is_dir) || (a.is_dir == b.is_dir && lex_le(a.name@, b.name@))
}

pub open spec fn listing_sorted(s: Seq<ListingEntry>) -> bool {
    forall|i: int, j: int| 0 <= i < j < s.len() ==> listed_before(#[trigger] s[i], #[trigger] s[j])
}

impl SortKey for ListingEntry {
    open spec fn before(&self, other: &ListingEntry) -> bool {
        listed_before(*self, *other)
    }

    fn before_exec(&self, other: &ListingEntry) -> (r: bool) {
        if self.is_dir != other.is_dir {
            self.is_dir
        } else {
            name_le(&self.name, &other.name)
        }
    }

    proof fn lemma_total(a: &ListingEntry, b: &ListingEntry) {
        lemma_lex_total(a.name@, b.name@);
    }

    proof fn lemma_trans(a: &ListingEntry, b: &ListingEntry, c: &ListingEntry) {
        if a.is_dir == b.is_dir && b.is_dir == c.is_dir {
            lemma_lex_trans(a.name@, b.name@, c.name@);
        }
    }
}

/// The entries in listing order.
pub fn sort_listing(v: Vec<ListingEntry>) -> (r: Vec<ListingEntry>)
    ensures
        listing_sorted(r@),
        r@.to_multiset() == v@.to_multiset(),
{
    let r = insertion_sort(v);
    assert(listing_sorted(r@)) by {
        assert forall|i: int, j: int| 0 <= i < j < r@.len() implies listed_before(#[trigger] r@[i], #[trigger] r@[j]) by {
            assert(r@[i].before(&r@[j]));
        }
    }
    r
}

/// The decimal digits of `n`, without leading zeros.
pub open spec fn decimal(n: nat) -> Seq<u8>
    decreases n,
{
    if n < 10 {
        seq![(48 + n) as u8]
    } else {
        decimal(n / 10).push((48 + n % 10) as u8)
    }
}

fn push_decimal(out: &mut Vec<u8>, n: u64)
    ensures
        final(out)@ == old(out)@ + decimal(n as nat),
    decreases n,
{
    if n >= 10 {
        push_decimal(out, n / 10);
    }
    out.push(48 + (n % 10) as u8);
    proof {
        if n >= 10 {
            assert(old(out)@ + decimal(n as nat) =~= old(out)@ + decimal((n / 10) as nat) + seq![(48 + n % 10) as u8]);
        } else {
            assert(old(out)@ + decimal(n as nat) =~= old(out)@ + seq![(48 + n % 10) as u8]);
        }
    }
}

/// The UTF-8 bytes of a text.
pub open spec fn text(s: &str) -> Seq<u8> {
    s.spec_bytes()
}

/// `p` without its trailing slashes.
pub open spec fn trim_slashes(p: Seq<u8>) -> Seq<u8>
    decreases p.len(),
{
    if p.len() > 0 && p.last() == 47 {
        trim_slashes(p.drop_last())
    } else {
        p
    }
}

/// One row of the index.
pub open spec fn row(e: ListingEntry) -> Seq<u8> {
    let url = percent_encoded(e.name@);
    let name = html_escaped(e.name@);
    if e.is_dir {
        text("<tr><td>\u{1F4C2} <a href=\"") + url + text("/\">") + name + text("/</a></td>\n")
            + text("    <td><small>[<a href=\"") + url + text(".tar\">.tar</a>]</small></td></tr>\n")
    } else {
        text("<tr><td>\u{1F5CE} <a href=\"") + url + text("\">") + name + text("</a></td>\n")
            + text("    <td>") + decimal(e.size as nat) + text("</td></tr>\n")
    }
}

pub open spec fn rows(es: Seq<ListingEntry>) -> Seq<u8>
    decreases es.len(),
{
    if es.len() == 0 {
        Seq::empty()
    } else {
        rows(es.drop_last()) + row(es.last())
    }
}

/// The whole page for the directory at request path `path`.
pub open spec fn listing_html(path: Seq<u8>, es: Seq<ListingEntry>) -> Seq<u8> {
    let shown = html_escaped(path);
    text("<!DOCTYPE html>\n<html><head>\n<title>Index of ") + shown + text("</title>\n</head>\n<body>\n")
        + text("<h1>Index of ") + shown + text("</h1>\n")
        + text("<small>[<a href=\"") + trim_slashes(path) + text(".tar\">.tar</a> of whole directory]</small>\n")
        + text("<table>\n<tr><td>\u{1F4C1} <a href='../'>../</a></td><td>Size</td></tr>\n") + rows(es)
        + text("</table>\n<footer>dirtar 0.1.0</footer>\n</body>\n</html>\n")
}

fn trim_slashes_len(p: &[u8]) -> (n: usize)
    ensures
        n <= p@.len(),
        p@.take(n as int) == trim_slashes(p@),
{
    let mut n = p.len();
    assert(p@.take(n as int) =~= p@);
    while n > 0 && p[n - 1] == 47
        invariant
            n <= p@.len(),
            trim_slashes(p@.take(n as int)) == trim_slashes(p@),
        decreases n,
    {
        assert(p@.take(n as int).drop_last() =~= p@.take(n - 1));
        n = n - 1;
    }
    n
}

fn push_row(out: &mut Vec<u8>, e: &ListingEntry)
    ensures
        final(out)@ == old(out)@ + row(*e),
{
    let url = url_component(e.name.as_slice());
    let name = html_text(e.name.as_slice());
    if e.is_dir {
        push_bytes(out, "<tr><td>\u{1F4C2} <a href=\"".as_bytes());
        push_bytes(out, url.as_slice());
        push_bytes(out, "/\">".as_bytes());
        push_bytes(out, name.as_slice());
        push_bytes(out, "/</a></td>\n".as_bytes());
        push_bytes(out, "    <td><small>[<a href=\"".as_bytes());
        push_bytes(out, url.as_slice());
        push_bytes(out, ".tar\">.tar</a>]</small></td></tr>\n".as_bytes());
    } else {
        push_bytes(out, "<tr><td>\u{1F5CE} <a href=\"".as_bytes());
        push_bytes(out, url.as_slice());
        push_bytes(out, "\">".as_bytes());
        push_bytes(out, name.as_slice());
        push_bytes(out, "</a></td>\n".as_bytes());
        push_bytes(out, "    <td>".as_bytes());
        push_decimal(out, e.size);
        push_bytes(out, "</td></tr>\n".as_bytes());
    }
    assert(final(out)@ =~= old(out)@ + row(*e));
}

/// Renders the index page of the directory at request path `path`, its
/// entries in the order given.
pub fn render_listing(path: &[u8], entries: &Vec<ListingEntry>) -> (r: Vec<u8>)
    ensures
        r@ == listing_html(path@, entries@),
{
    let shown = html_text(path);
    let mut out: Vec<u8> = Vec::new();
    push_bytes(&mut out, "<!DOCTYPE html>\n<html><head>\n<title>Index of ".as_bytes());
    push_bytes(&mut out, shown.as_slice());
    push_bytes(&mut out, "</title>\n</head>\n<body>\n".as_bytes());
    push_bytes(&mut out, "<h1>Index of ".as_bytes());
    push_bytes(&mut out, shown.as_slice());
    push_bytes(&mut out, "</h1>\n".as_bytes());
    push_bytes(&mut out, "<small>[<a href=\"".as_bytes());
    let n = trim_slashes_len(path);
    let mut i: usize = 0;
    let ghost mid = out@;
    while i < n
        invariant
            n <= path@.len(),
            i <= n,
            out@ == mid + path@.take(i as int),
        decreases n - i,
    {
        out.push(path[i]);
        i = i + 1;
        assert(out@ =~= mid + path@.take(i as int));
    }
    push_bytes(&mut out, ".tar\">.tar</a> of whole directory]</small>\n".as_bytes());
    push_bytes(&mut out, "<table>\n<tr><td>\u{1F4C1} <a href='../'>../</a></td><td>Size</td></tr>\n".as_bytes());
    let ghost head = out@;
    let mut k: usize = 0;
    while k < entries.len()
        invariant
            k <= entries@.len(),
            out@ == head + rows(entries@.take(k as int)),
        decreases entries@.len() - k,
    {
        assert(entries@.take(k + 1).drop_last() =~= entries@.take(k as int));
        push_row(&mut out, &entries[k]);
        k = k + 1;
        assert(out@ =~= head + rows(entries@.take(k as int)));
    }
    assert(entries@.take(entries@.len() as int) =~= entries@);
    push_bytes(&mut out, "</table>\n<footer>dirtar 0.1.0</footer>\n</body>\n</html>\n".as_bytes());
    assert(out@ =~= listing_html(path@, entries@));
    out
}

} // verus!
