//! Benchmark fixtures: generated HTML documents of exact sizes, and the check that a fixture has
//! the size and the number of images without alt text it should.
use vstd::prelude::*;
use vstd::string::{StringSliceAdditionalSpecFns, is_ascii};


verus! {

/// The size of the small fixture.
pub const SMALL_BYTES: usize = 16384;

/// The size of the mixed fixture.
pub const MIXED_BYTES: usize = 524288;

/// The size of the large fixture.
pub const LARGE_BYTES: usize = 16777216;

/// The number of generated sections of the mixed fixture, each with an image without alt text.
pub const MIXED_SECTIONS: usize = 256;

/// An ASCII literal has one byte per character.
proof fn lemma_ascii_len(s: &str)
    requires
        is_ascii(s),
    ensures
        s.spec_bytes().len() == s@.len(),
{
    broadcast use vstd::string::is_ascii_spec_bytes;

}

/// Appends `bytes` to `out`.
fn append(out: &mut Vec<u8>, bytes: &[u8])
    requires
        old(out)@.len() + bytes@.len() <= usize::MAX,
    ensures
        final(out)@ == old(out)@ + bytes@,
{
    let ghost start = out@;
    let mut i: usize = 0;
    while i < bytes.len()
        invariant
            i <= bytes@.len(),
            out@ == start + bytes@.take(i as int),
        decreases bytes@.len() - i,
    {
        out.push(bytes[i]);
        i = i + 1;
        assert(out@ =~= start + bytes@.take(i as int));
    }
    assert(bytes@.take(i as int) =~= bytes@);
}

/// `n` copies of `row`, one after another.
pub open spec fn repeated(row: Seq<u8>, n: nat) -> Seq<u8>
    decreases n,
{
    if n == 0 {
        seq![]
    } else {
        repeated(row, (n - 1) as nat) + row
    }
}

/// How many rows of `row_len` bytes fit in `room` bytes.
pub open spec fn rows_fitting(room: int, row_len: int) -> nat
    decreases room,
{
    if row_len > 0 && room >= row_len {
        1 + rows_fitting(room - row_len, row_len)
    } else {
        0
    }
}

/// `n` spaces.
pub open spec fn spaces(n: nat) -> Seq<u8> {
    Seq::new(n, |i: int| 32u8)
}

/// What `fill_with_rows` makes of `out`: as many copies of `row` as leave room for `closing`
/// and a comment of at least 7 bytes, then such a comment padded with spaces to reach `target`
/// bytes, then `closing`.
pub open spec fn filled(out: Seq<u8>, row: Seq<u8>, target: int, closing: Seq<u8>) -> Seq<u8> {
    let body = out + repeated(row, rows_fitting(target - closing.len() - 7 - out.len(), row.len() as int));
    body + "<!--".spec_bytes() + spaces((target - body.len() - closing.len() - 7) as nat)
        + "-->".spec_bytes() + closing
}

/// Fills `out` up to exactly `target` bytes with copies of `row`, a padding comment and
/// `closing`.
pub fn fill_with_rows(out: &mut Vec<u8>, row: &[u8], target: usize, closing: &[u8])
    requires
        row@.len() > 0,
        old(out)@.len() + closing@.len() + 7 <= target,
        target + row@.len() <= usize::MAX,
    ensures
        final(out)@ == filled(old(out)@, row@, target as int, closing@),
        final(out)@.len() == target,
{
    let ghost start = out@;
    let reserve: usize = closing.len() + 7;
    let ghost room: int = target - reserve - start.len();
    let ghost mut rows: nat = 0;
    while out.len() + row.len() + reserve <= target
        invariant
            reserve == closing@.len() + 7,
            row@.len() > 0,
            target + row@.len() <= usize::MAX,
            out@.len() + reserve <= target,
            out@ == start + repeated(row@, rows),
            rows + rows_fitting(target - reserve - out@.len(), row@.len() as int) == rows_fitting(
                room,
                row@.len() as int,
            ),
        decreases target - out@.len(),
    {
        append(out, row);
        proof {
            rows = rows + 1;
            assert(out@ =~= start + repeated(row@, rows));
        }
    }
    let body_len: usize = out.len();
    let padding: usize = target - out.len() - closing.len();
    proof {
        reveal_strlit("<!--");
        reveal_strlit("-->");
        lemma_ascii_len("<!--");
        lemma_ascii_len("-->");
    }
    append(out, "<!--".as_bytes());
    let mut i: usize = 0;
    let ghost with_open = out@;
    while i < padding - 7
        invariant
            i <= padding - 7,
            out@ == with_open + spaces(i as nat),
            with_open.len() == body_len + 4,
            body_len + padding + closing@.len() == target,
            padding >= 7,
            target + row@.len() <= usize::MAX,
        decreases padding - 7 - i,
    {
        out.push(32u8);
        i = i + 1;
        assert(out@ =~= with_open + spaces(i as nat));
    }
    append(out, "-->".as_bytes());
    append(out, closing);
    assert(out@ =~= filled(start, row@, target as int, closing@));
}

/// The start of a document up to its body, with `title` as its title.
pub open spec fn header_bytes(title: Seq<u8>) -> Seq<u8> {
    "<!doctype html>\n<html lang=en><head><meta charset=utf-8><title>".spec_bytes() + title
        + "</title></head><body>\n".spec_bytes()
}

/// The start of a document up to its body, with `title` as its title.
pub fn header(title: &str) -> (out: Vec<u8>)
    requires
        header_bytes(title.spec_bytes()).len() <= usize::MAX,
    ensures
        out@ == header_bytes(title.spec_bytes()),
{
    proof {
        reveal_strlit("<!doctype html>\n<html lang=en><head><meta charset=utf-8><title>");
        reveal_strlit("</title></head><body>\n");
        lemma_ascii_len("<!doctype html>\n<html lang=en><head><meta charset=utf-8><title>");
        lemma_ascii_len("</title></head><body>\n");
    }
    let mut out = Vec::new();
    append(&mut out, "<!doctype html>\n<html lang=en><head><meta charset=utf-8><title>".as_bytes());
    append(&mut out, title.as_bytes());
    append(&mut out, "</title></head><body>\n".as_bytes());
    out
}

/// The small fixture: a clean document of rows with described images and typed buttons.
pub open spec fn small_fixture_bytes() -> Seq<u8> {
    filled(
        header_bytes("Small clean agent artifact".spec_bytes()),
        "<article><h2>Artifact card</h2><img src=preview.webp alt=\"Artifact preview\" width=320 height=180><button type=button>Inspect</button></article>\n".spec_bytes(),
        SMALL_BYTES as int,
        "</body></html>\n".spec_bytes(),
    )
}

/// Generates the small fixture.
pub fn small_fixture() -> (out: Vec<u8>)
    ensures
        out@ == small_fixture_bytes(),
        out@.len() == SMALL_BYTES,
{
    proof {
        reveal_strlit("<!doctype html>\n<html lang=en><head><meta charset=utf-8><title>");
        reveal_strlit("</title></head><body>\n");
        lemma_ascii_len("<!doctype html>\n<html lang=en><head><meta charset=utf-8><title>");
        lemma_ascii_len("</title></head><body>\n");
        reveal_strlit("Small clean agent artifact");
        reveal_strlit("</body></html>\n");
        reveal_strlit("<article><h2>Artifact card</h2><img src=preview.webp alt=\"Artifact preview\" width=320 height=180><button type=button>Inspect</button></article>\n");
        lemma_ascii_len("Small clean agent artifact");
        lemma_ascii_len("</body></html>\n");
        lemma_ascii_len("<article><h2>Artifact card</h2><img src=preview.webp alt=\"Artifact preview\" width=320 height=180><button type=button>Inspect</button></article>\n");
    }
    let mut out = header("Small clean agent artifact");
    fill_with_rows(
        &mut out,
        "<article><h2>Artifact card</h2><img src=preview.webp alt=\"Artifact preview\" width=320 height=180><button type=button>Inspect</button></article>\n".as_bytes(),
        SMALL_BYTES,
        "</body></html>\n".as_bytes(),
    );
    out
}

/// The decimal digits of `n`, as ASCII bytes, without leading zeros.
pub open spec fn decimal(n: nat) -> Seq<u8>
    decreases n,
{
    if n < 10 {
        seq![(48 + n) as u8]
    } else {
        decimal(n / 10) + seq![(48 + n % 10) as u8]
    }
}

/// Numbers below 1000 take at most three digits.
proof fn lemma_decimal_len(n: nat)
    requires
        n < 1000,
    ensures
        1 <= decimal(n).len() <= 3,
{
    reveal_with_fuel(decimal, 3);
    if n >= 10 {
        if n / 10 >= 10 {
            assert(n / 10 / 10 < 10);
            assert(decimal(n / 10 / 10).len() == 1);
            assert(decimal(n / 10).len() == 2);
        } else {
            assert(decimal(n / 10).len() == 1);
        }
    }
}

/// Writes `n` in decimal.
fn write_decimal(n: usize) -> (out: Vec<u8>)
    ensures
        out@ == decimal(n as nat),
    decreases n,
{
    if n < 10 {
        let mut out = Vec::new();
        out.push(48u8 + n as u8);
        assert(out@ =~= decimal(n as nat));
        out
    } else {
        let mut out = write_decimal(n / 10);
        out.push(48u8 + (n % 10) as u8);
        assert(out@ =~= decimal(n as nat));
        out
    }
}

/// The generated section `index` of the mixed fixture: an image without alt text, a typed
/// button and a titled iframe.
pub open spec fn mixed_section(index: nat) -> Seq<u8> {
    "<section class=card data-index=".spec_bytes() + decimal(index)
        + "><h2>Generated item ".spec_bytes() + decimal(index) + "</h2><img src=\"asset-".spec_bytes()
        + decimal(index)
        + ".webp\" width=320 height=180><button type=button>Repair</button><iframe title=\"Item ".spec_bytes()
        + decimal(index) + " details\" src=about:blank></iframe></section>\n".spec_bytes()
}

/// The first `n` generated sections of the mixed fixture.
pub open spec fn mixed_sections(n: nat) -> Seq<u8>
    decreases n,
{
    if n == 0 {
        seq![]
    } else {
        mixed_sections((n - 1) as nat) + mixed_section((n - 1) as nat)
    }
}

/// The head of the mixed fixture, up to its body.
pub open spec fn mixed_head() -> Seq<u8> {
    "<!doctype html>\n<html lang=en><head><meta charset=utf-8><title>".spec_bytes()
        + "Mixed repair artifact".spec_bytes() + "</title>\n".spec_bytes()
        + "<style>.card{display:grid}.quiet{color:#555}</style>\n".spec_bytes()
        + "<script>const marker = '</not-a-real-end-tag>'; window.__artifactReady = true;</script>\n".spec_bytes()
        + "</head><body>\n".spec_bytes()
}

/// The mixed fixture: generated sections, each with one image without alt text, then clean
/// rows.
pub open spec fn mixed_fixture_bytes() -> Seq<u8> {
    filled(
        mixed_head() + mixed_sections(MIXED_SECTIONS as nat),
        "<section class=quiet><p>Already repaired content with entities &amp; text.</p><img src=ok.webp alt=\"Complete preview\"><button type=button>Keep</button></section>\n".spec_bytes(),
        MIXED_BYTES as int,
        "</body></html>\n".spec_bytes(),
    )
}

/// Generates the mixed fixture.
pub fn mixed_fixture() -> (out: Vec<u8>)
    ensures
        out@ == mixed_fixture_bytes(),
        out@.len() == MIXED_BYTES,
{
    proof {
        reveal_strlit("<!doctype html>\n<html lang=en><head><meta charset=utf-8><title>");
        reveal_strlit("Mixed repair artifact");
        reveal_strlit("</title>\n");
        reveal_strlit("<style>.card{display:grid}.quiet{color:#555}</style>\n");
        reveal_strlit("<script>const marker = '</not-a-real-end-tag>'; window.__artifactReady = true;</script>\n");
        reveal_strlit("</head><body>\n");
        reveal_strlit("<section class=card data-index=");
        reveal_strlit("><h2>Generated item ");
        reveal_strlit("</h2><img src=\"asset-");
        reveal_strlit(".webp\" width=320 height=180><button type=button>Repair</button><iframe title=\"Item ");
        reveal_strlit(" details\" src=about:blank></iframe></section>\n");
        reveal_strlit("<section class=quiet><p>Already repaired content with entities &amp; text.</p><img src=ok.webp alt=\"Complete preview\"><button type=button>Keep</button></section>\n");
        reveal_strlit("</body></html>\n");
        lemma_ascii_len("<!doctype html>\n<html lang=en><head><meta charset=utf-8><title>");
        lemma_ascii_len("Mixed repair artifact");
        lemma_ascii_len("</title>\n");
        lemma_ascii_len("<style>.card{display:grid}.quiet{color:#555}</style>\n");
        lemma_ascii_len("<script>const marker = '</not-a-real-end-tag>'; window.__artifactReady = true;</script>\n");
        lemma_ascii_len("</head><body>\n");
        lemma_ascii_len("<section class=card data-index=");
        lemma_ascii_len("><h2>Generated item ");
        lemma_ascii_len("</h2><img src=\"asset-");
        lemma_ascii_len(".webp\" width=320 height=180><button type=button>Repair</button><iframe title=\"Item ");
        lemma_ascii_len(" details\" src=about:blank></iframe></section>\n");
        lemma_ascii_len("<section class=quiet><p>Already repaired content with entities &amp; text.</p><img src=ok.webp alt=\"Complete preview\"><button type=button>Keep</button></section>\n");
        lemma_ascii_len("</body></html>\n");
    }
    let mut out = Vec::new();
    append(&mut out, "<!doctype html>\n<html lang=en><head><meta charset=utf-8><title>".as_bytes());
    append(&mut out, "Mixed repair artifact".as_bytes());
    append(&mut out, "</title>\n".as_bytes());
    append(&mut out, "<style>.card{display:grid}.quiet{color:#555}</style>\n".as_bytes());
    append(
        &mut out,
        "<script>const marker = '</not-a-real-end-tag>'; window.__artifactReady = true;</script>\n".as_bytes(),
    );
    append(&mut out, "</head><body>\n".as_bytes());
    assert(out@ =~= mixed_head());
    let mut index: usize = 0;
    while index < MIXED_SECTIONS
        invariant
            index <= MIXED_SECTIONS,
            out@ == mixed_head() + mixed_sections(index as nat),
            out@.len() <= 268 + 213 * index,
            "<section class=card data-index=".spec_bytes().len() == 31,
            "><h2>Generated item ".spec_bytes().len() == 20,
            "</h2><img src=\"asset-".spec_bytes().len() == 21,
            ".webp\" width=320 height=180><button type=button>Repair</button><iframe title=\"Item ".spec_bytes().len() == 83,
            " details\" src=about:blank></iframe></section>\n".spec_bytes().len() == 46,
        decreases MIXED_SECTIONS - index,
    {
        let digits = write_decimal(index);
        proof {
            lemma_decimal_len(index as nat);
        }
        let ghost before = out@;
        append(&mut out, "<section class=card data-index=".as_bytes());
        append(&mut out, digits.as_slice());
        append(&mut out, "><h2>Generated item ".as_bytes());
        append(&mut out, digits.as_slice());
        append(&mut out, "</h2><img src=\"asset-".as_bytes());
        append(&mut out, digits.as_slice());
        append(
            &mut out,
            ".webp\" width=320 height=180><button type=button>Repair</button><iframe title=\"Item ".as_bytes(),
        );
        append(&mut out, digits.as_slice());
        append(&mut out, " details\" src=about:blank></iframe></section>\n".as_bytes());
        assert(out@ =~= before + mixed_section(index as nat));
        index = index + 1;
        assert(out@ =~= mixed_head() + mixed_sections(index as nat));
    }
    let ghost prefix = out@;
    fill_with_rows(
        &mut out,
        "<section class=quiet><p>Already repaired content with entities &amp; text.</p><img src=ok.webp alt=\"Complete preview\"><button type=button>Keep</button></section>\n".as_bytes(),
        MIXED_BYTES,
        "</body></html>\n".as_bytes(),
    );
    out
}

/// The large fixture: a long table of rows with described images.
pub open spec fn large_fixture_bytes() -> Seq<u8> {
    filled(
        header_bytes("Large generated report".spec_bytes())
            + "<main id=report><table><thead><tr><th>Artifact</th><th>Status</th><th>Preview</th></tr></thead><tbody>\n".spec_bytes(),
        "<tr><td>Generated HTML artifact</td><td data-state=verified>verified</td><td><img src=thumb.webp alt=\"Verified artifact preview\" width=96 height=54></td></tr>\n".spec_bytes(),
        LARGE_BYTES as int,
        "</tbody></table></main></body></html>\n".spec_bytes(),
    )
}

/// Generates the large fixture.
pub fn large_fixture() -> (out: Vec<u8>)
    ensures
        out@ == large_fixture_bytes(),
        out@.len() == LARGE_BYTES,
{
    proof {
        reveal_strlit("Large generated report");
        reveal_strlit("<main id=report><table><thead><tr><th>Artifact</th><th>Status</th><th>Preview</th></tr></thead><tbody>\n");
        reveal_strlit("<tr><td>Generated HTML artifact</td><td data-state=verified>verified</td><td><img src=thumb.webp alt=\"Verified artifact preview\" width=96 height=54></td></tr>\n");
        reveal_strlit("</tbody></table></main></body></html>\n");
        lemma_ascii_len("Large generated report");
        lemma_ascii_len("<main id=report><table><thead><tr><th>Artifact</th><th>Status</th><th>Preview</th></tr></thead><tbody>\n");
        lemma_ascii_len("<tr><td>Generated HTML artifact</td><td data-state=verified>verified</td><td><img src=thumb.webp alt=\"Verified artifact preview\" width=96 height=54></td></tr>\n");
        lemma_ascii_len("</tbody></table></main></body></html>\n");
        reveal_strlit("<!doctype html>\n<html lang=en><head><meta charset=utf-8><title>");
        reveal_strlit("</title></head><body>\n");
        lemma_ascii_len("<!doctype html>\n<html lang=en><head><meta charset=utf-8><title>");
        lemma_ascii_len("</title></head><body>\n");
    }
    let mut out = header("Large generated report");
    append(
        &mut out,
        "<main id=report><table><thead><tr><th>Artifact</th><th>Status</th><th>Preview</th></tr></thead><tbody>\n".as_bytes(),
    );
    fill_with_rows(
        &mut out,
        "<tr><td>Generated HTML artifact</td><td data-state=verified>verified</td><td><img src=thumb.webp alt=\"Verified artifact preview\" width=96 height=54></td></tr>\n".as_bytes(),
        LARGE_BYTES,
        "</tbody></table></main></body></html>\n".as_bytes(),
    );
    out
}

/// How many times `pattern` occurs in `s`, overlapping occurrences included.
pub open spec fn occurrences(s: Seq<u8>, pattern: Seq<u8>) -> nat
    decreases s.len(),
{
    if s.len() == 0 {
        0
    } else {
        occurrences(s.drop_last(), pattern) + if s.len() >= pattern.len() && s.subrange(
            s.len() - pattern.len(),
            s.len() as int,
        ) == pattern {
            1nat
        } else {
            0nat
        }
    }
}

/// Counts the windows of `input` that equal `pattern`.
pub fn count_occurrences(input: &[u8], pattern: &[u8]) -> (r: usize)
    requires
        pattern@.len() > 0,
    ensures
        r == occurrences(input@, pattern@),
{
    let mut count: usize = 0;
    let mut end: usize = 0;
    while end < input.len()
        invariant
            end <= input@.len(),
            pattern@.len() > 0,
            count == occurrences(input@.take(end as int), pattern@),
            count <= end,
        decreases input@.len() - end,
    {
        let ghost prefix = input@.take(end + 1);
        assert(prefix.drop_last() =~= input@.take(end as int));
        if end + 1 >= pattern.len() {
            let start: usize = end + 1 - pattern.len();
            let mut k: usize = 0;
            let mut same = true;
            while k < pattern.len()
                invariant
                    k <= pattern@.len(),
                    start + pattern@.len() == end + 1,
                    end < input@.len(),
                    same == forall|m: int| 0 <= m < k ==> input@[start + m] == pattern@[m],
                decreases pattern@.len() - k,
            {
                if input[start + k] != pattern[k] {
                    same = false;
                }
                k = k + 1;
            }
            assert(same == (prefix.subrange(start as int, end + 1) == pattern@)) by {
                if same {
                    assert(prefix.subrange(start as int, end + 1) =~= pattern@);
                } else {
                    let m: int = choose|m: int| 0 <= m < pattern@.len() && input@[start + m] != pattern@[m];
                    assert(prefix.subrange(start as int, end + 1)[m] != pattern@[m]);
                }
            }
            if same {
                count = count + 1;
            }
        }
        end = end + 1;
    }
    assert(input@.take(end as int) =~= input@);
    count
}

/// Whether a generated fixture has `expected_bytes` bytes and `expected_missing_alt` more
/// `<img ` tags than `alt=` attributes.
pub fn fixture_matches(input: &[u8], expected_bytes: usize, expected_missing_alt: usize) -> (r:
    bool)
    ensures
        r == (input@.len() == expected_bytes && occurrences(input@, "<img ".spec_bytes())
            == occurrences(input@, "alt=".spec_bytes()) + expected_missing_alt),
{
    proof {
        reveal_strlit("<img ");
        reveal_strlit("alt=");
        lemma_ascii_len("<img ");
        lemma_ascii_len("alt=");
    }
    if input.len() != expected_bytes {
        return false;
    }
    let tags: usize = count_occurrences(input, "<img ".as_bytes());
    let alt_attributes: usize = count_occurrences(input, "alt=".as_bytes());
    tags >= alt_attributes && tags - alt_attributes == expected_missing_alt
}

} // verus!
