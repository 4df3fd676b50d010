//! The data model of the linter: rule sets, diagnostics and reports.
use vstd::prelude::*;

use crate::text::{
    chars_of, lemma_split_on_append_piece, lemma_split_on_nonempty, lemma_split_on_prefix, split_on,
    text_eq,
};

verus! {

/// A set of lint rules, stored as a bit mask.
#[derive(Clone, Copy, Debug, PartialEq, Eq, Structural)]
pub struct RuleSet(u8);

/// The bit of the rule named `name`, if there is such a rule.
pub open spec fn rule_bit(name: Seq<char>) -> Option<u8> {
    if name == "img-alt"@ {
        Some(RuleSet::IMG_ALT)
    } else if name == "html-lang"@ {
        Some(RuleSet::HTML_LANG)
    } else if name == "button-type"@ {
        Some(RuleSet::BUTTON_TYPE)
    } else if name == "iframe-title"@ {
        Some(RuleSet::IFRAME_TITLE)
    } else if name == "doctype-html"@ {
        Some(RuleSet::DOCTYPE_HTML)
    } else if name == "parse-error"@ {
        Some(RuleSet::PARSE_ERROR)
    } else {
        None
    }
}

/// The mask that a comma-separated list of rule names denotes, or the message for its first
/// bad name.
pub open spec fn parse_rule_names(pieces: Seq<Seq<char>>) -> Result<u8, Seq<char>>
    decreases pieces.len(),
{
    if pieces.len() == 0 {
        Ok(0)
    } else {
        match parse_rule_names(pieces.drop_last()) {
            Err(e) => Err(e),
            Ok(bits) => {
                let name = pieces.last();
                if name.len() == 0 {
                    Err("--rules cannot be empty"@)
                } else {
                    match rule_bit(name) {
                        Some(bit) => Ok(bits | bit),
                        None => Err("unknown rule: "@ + name),
                    }
                }
            },
        }
    }
}

/// What the value of `--rules` denotes: the mask of the rule set, or an error message.
pub open spec fn rules_from_text(value: Seq<char>) -> Result<u8, Seq<char>> {
    if value == "all"@ {
        Ok(RuleSet::ALL_MASK)
    } else if value == "common"@ {
        Ok(RuleSet::IMG_ALT)
    } else {
        parse_rule_names(split_on(value, ','))
    }
}

/// Once a prefix of the names fails, the whole list fails with the same message.
pub proof fn lemma_parse_rule_names_error_prefix(p: Seq<Seq<char>>, q: Seq<Seq<char>>)
    requires
        p.len() <= q.len(),
        q.take(p.len() as int) == p,
        parse_rule_names(p) is Err,
    ensures
        parse_rule_names(q) == parse_rule_names(p),
    decreases q.len(),
{
    if q.len() > p.len() {
        assert(q.drop_last().take(p.len() as int) =~= p);
        lemma_parse_rule_names_error_prefix(p, q.drop_last());
    } else {
        assert(q =~= p);
    }
}

/// Text without a comma is a single piece.
proof fn lemma_split_without_comma(s: Seq<char>)
    requires
        forall|i: int| 0 <= i < s.len() ==> s[i] != ',',
    ensures
        split_on(s, ',') == seq![s],
    decreases s.len(),
{
    if s.len() > 0 {
        lemma_split_without_comma(s.drop_last());
        assert(s.drop_last().push(s.last()) =~= s);
    } else {
        assert(s =~= Seq::<char>::empty());
    }
}

/// A rule name alone selects exactly its rule.
pub proof fn law_rule_name_alone_selects_its_rule(name: Seq<char>)
    requires
        rule_bit(name) is Some,
    ensures
        rules_from_text(name) == Ok::<u8, Seq<char>>(rule_bit(name).unwrap()),
{
    reveal_strlit("img-alt");
    reveal_strlit("html-lang");
    reveal_strlit("button-type");
    reveal_strlit("iframe-title");
    reveal_strlit("doctype-html");
    reveal_strlit("parse-error");
    reveal_strlit("all");
    reveal_strlit("common");
    assert(name.len() > 3);
    assert(name != "all"@);
    assert(name != "common"@);
    assert(forall|i: int| 0 <= i < name.len() ==> name[i] != ',');
    lemma_split_without_comma(name);
    let pieces: Seq<Seq<char>> = seq![name];
    assert(pieces.drop_last() =~= Seq::<Seq<char>>::empty());
    assert(parse_rule_names(pieces.drop_last()) == Ok::<u8, Seq<char>>(0));
    assert(pieces.last() == name);
    let bit = rule_bit(name).unwrap();
    assert(0u8 | bit == bit) by (bit_vector);
    assert(parse_rule_names(pieces) == Ok::<u8, Seq<char>>(bit));
}

/// A list of rule names only ever selects known rules.
proof fn lemma_parsed_names_known(pieces: Seq<Seq<char>>)
    ensures
        parse_rule_names(pieces) matches Ok(mask) ==> mask & RuleSet::ALL_MASK == mask,
    decreases pieces.len(),
{
    if pieces.len() > 0 {
        lemma_parsed_names_known(pieces.drop_last());
        if let Ok(bits) = parse_rule_names(pieces.drop_last()) {
            if let Some(bit) = rule_bit(pieces.last()) {
                assert(bits & 63u8 == bits && (bit == 1u8 || bit == 2u8 || bit == 4u8 || bit == 8u8
                    || bit == 16u8 || bit == 32u8) ==> (bits | bit) & 63u8 == (bits | bit))
                    by (bit_vector);
            }
        }
    } else {
        assert(0u8 & 63u8 == 0u8) by (bit_vector);
    }
}

/// The value of `--rules` selects no rule beyond the known ones.
pub proof fn law_parsed_rules_are_known(value: Seq<char>)
    ensures
        rules_from_text(value) matches Ok(mask) ==> mask & RuleSet::ALL_MASK == mask,
{
    lemma_parsed_names_known(split_on(value, ','));
    assert(63u8 & 63u8 == 63u8 && 1u8 & 63u8 == 1u8) by (bit_vector);
}

/// Whether every piece of a list names a rule.
pub open spec fn names_rules(pieces: Seq<Seq<char>>) -> bool {
    forall|i: int| 0 <= i < pieces.len() ==> rule_bit(#[trigger] pieces[i]) is Some
}

/// Whether `bit` is the bit of a single rule.
pub open spec fn is_rule_bit(bit: u8) -> bool {
    bit == 1 || bit == 2 || bit == 4 || bit == 8 || bit == 16 || bit == 32
}

/// Whether some piece of a list names the rule of `bit`.
pub open spec fn names_bit(pieces: Seq<Seq<char>>, bit: u8) -> bool {
    exists|i: int| 0 <= i < pieces.len() && rule_bit(#[trigger] pieces[i]) == Some(bit)
}

/// Adding a single rule bit to a mask sets exactly that bit.
proof fn lemma_add_rule_bit(bits: u8, bit: u8, other: u8)
    by (bit_vector)
    requires
        bits & 63 == bits,
        bit == 1 || bit == 2 || bit == 4 || bit == 8 || bit == 16 || bit == 32,
        other == 1 || other == 2 || other == 4 || other == 8 || other == 16 || other == 32,
    ensures
        (bits | bit) & 63 == (bits | bit),
        ((bits | bit) & other != 0) == ((bits & other != 0) || bit == other),
{
}

/// Two masks of known rules that agree on every rule bit are equal.
proof fn lemma_masks_agree(a: u8, b: u8)
    by (bit_vector)
    requires
        a & 63 == a,
        b & 63 == b,
        (a & 1 != 0) == (b & 1 != 0),
        (a & 2 != 0) == (b & 2 != 0),
        (a & 4 != 0) == (b & 4 != 0),
        (a & 8 != 0) == (b & 8 != 0),
        (a & 16 != 0) == (b & 16 != 0),
        (a & 32 != 0) == (b & 32 != 0),
    ensures
        a == b,
{
}

/// A list of rule names denotes the mask whose bits are exactly the rules that it names.
pub proof fn lemma_parse_rule_names_bits(pieces: Seq<Seq<char>>)
    requires
        names_rules(pieces),
    ensures
        parse_rule_names(pieces) is Ok,
        parse_rule_names(pieces) matches Ok(mask) && mask & 63 == mask && forall|bit: u8|
            is_rule_bit(bit) ==> (mask & bit != 0 <==> #[trigger] names_bit(pieces, bit)),
    decreases pieces.len(),
{
    if pieces.len() == 0 {
        assert(0u8 & 63u8 == 0u8) by (bit_vector);
        assert forall|bit: u8| is_rule_bit(bit) implies (0u8 & bit != 0 <==> #[trigger] names_bit(
            pieces,
            bit,
        )) by {
            assert(is_rule_bit(bit) ==> 0u8 & bit == 0) by (bit_vector);
        }
    } else {
        let prior = pieces.drop_last();
        let name = pieces.last();
        assert(names_rules(prior)) by {
            assert forall|i: int| 0 <= i < prior.len() implies rule_bit(#[trigger] prior[i]) is Some by {
                assert(prior[i] == pieces[i]);
            }
        }
        lemma_parse_rule_names_bits(prior);
        let bits = parse_rule_names(prior)->Ok_0;
        assert(rule_bit(pieces[pieces.len() - 1]) is Some);
        let bit = rule_bit(name).unwrap();
        assert(name.len() > 0) by {
            reveal_strlit("img-alt");
            reveal_strlit("html-lang");
            reveal_strlit("button-type");
            reveal_strlit("iframe-title");
            reveal_strlit("doctype-html");
            reveal_strlit("parse-error");
        }
        assert(is_rule_bit(bit));
        assert(parse_rule_names(pieces) == Ok::<u8, Seq<char>>(bits | bit));
        lemma_add_rule_bit(bits, bit, 1);
        assert forall|other: u8| is_rule_bit(other) implies ((bits | bit) & other != 0
            <==> #[trigger] names_bit(pieces, other)) by {
            lemma_add_rule_bit(bits, bit, other);
            if names_bit(pieces, other) {
                let i = choose|i: int|
                    0 <= i < pieces.len() && rule_bit(#[trigger] pieces[i]) == Some(other);
                if i < prior.len() {
                    assert(prior[i] == pieces[i]);
                    assert(names_bit(prior, other));
                }
            }
            if names_bit(prior, other) {
                let i = choose|i: int|
                    0 <= i < prior.len() && rule_bit(#[trigger] prior[i]) == Some(other);
                assert(prior[i] == pieces[i]);
            }
            if bit == other {
                assert(rule_bit(pieces[pieces.len() - 1]) == Some(other));
            }
        }
    }
}

/// A list of rule names selects the same rules whatever the order of its names and however
/// often each of them occurs: two lists that hold the same names give the same mask.
pub proof fn law_rule_lists_depend_only_on_names(p: Seq<Seq<char>>, q: Seq<Seq<char>>)
    requires
        names_rules(p),
        forall|i: int| 0 <= i < p.len() ==> q.contains(#[trigger] p[i]),
        forall|j: int| 0 <= j < q.len() ==> p.contains(#[trigger] q[j]),
    ensures
        parse_rule_names(p) is Ok,
        parse_rule_names(p) == parse_rule_names(q),
{
    assert(names_rules(q)) by {
        assert forall|j: int| 0 <= j < q.len() implies rule_bit(#[trigger] q[j]) is Some by {
            assert(p.contains(q[j]));
            let i = choose|i: int| 0 <= i < p.len() && p[i] == q[j];
            assert(rule_bit(p[i]) is Some);
        }
    }
    lemma_parse_rule_names_bits(p);
    lemma_parse_rule_names_bits(q);
    let a = parse_rule_names(p)->Ok_0;
    let b = parse_rule_names(q)->Ok_0;
    assert forall|bit: u8| is_rule_bit(bit) implies (names_bit(p, bit) <==> names_bit(q, bit)) by {
        if names_bit(p, bit) {
            let i = choose|i: int| 0 <= i < p.len() && rule_bit(#[trigger] p[i]) == Some(bit);
            assert(q.contains(p[i]));
            let j = choose|j: int| 0 <= j < q.len() && q[j] == p[i];
            assert(rule_bit(q[j]) == Some(bit));
        }
        if names_bit(q, bit) {
            let j = choose|j: int| 0 <= j < q.len() && rule_bit(#[trigger] q[j]) == Some(bit);
            assert(p.contains(q[j]));
            let i = choose|i: int| 0 <= i < p.len() && p[i] == q[j];
            assert(rule_bit(p[i]) == Some(bit));
        }
    }
    assert(names_bit(p, 1) <==> names_bit(q, 1));
    assert(names_bit(p, 2) <==> names_bit(q, 2));
    assert(names_bit(p, 4) <==> names_bit(q, 4));
    assert(names_bit(p, 8) <==> names_bit(q, 8));
    assert(names_bit(p, 16) <==> names_bit(q, 16));
    assert(names_bit(p, 32) <==> names_bit(q, 32));
    lemma_masks_agree(a, b);
}

/// Two rule names listed in either order select the same rules, and a name listed twice
/// selects what it selects alone.
pub proof fn law_rule_order_and_repeats(a: Seq<char>, b: Seq<char>)
    requires
        rule_bit(a) is Some,
        rule_bit(b) is Some,
    ensures
        rules_from_text(a + seq![','] + b) is Ok,
        rules_from_text(a + seq![','] + b) == rules_from_text(b + seq![','] + a),
        rules_from_text(a + seq![','] + a) == rules_from_text(a),
{
    reveal_strlit("img-alt");
    reveal_strlit("html-lang");
    reveal_strlit("button-type");
    reveal_strlit("iframe-title");
    reveal_strlit("doctype-html");
    reveal_strlit("parse-error");
    reveal_strlit("all");
    reveal_strlit("common");
    assert(forall|i: int| 0 <= i < a.len() ==> a[i] != ',');
    assert(forall|i: int| 0 <= i < b.len() ==> b[i] != ',');
    lemma_split_without_comma(a);
    lemma_split_without_comma(b);
    lemma_split_on_append_piece(a, b, ',');
    lemma_split_on_append_piece(b, a, ',');
    lemma_split_on_append_piece(a, a, ',');
    let ab: Seq<Seq<char>> = seq![a, b];
    let ba: Seq<Seq<char>> = seq![b, a];
    let aa: Seq<Seq<char>> = seq![a, a];
    let single: Seq<Seq<char>> = seq![a];
    assert(split_on(a + seq![','] + b, ',') =~= ab);
    assert(split_on(b + seq![','] + a, ',') =~= ba);
    assert(split_on(a + seq![','] + a, ',') =~= aa);
    assert((a + seq![','] + b).len() > 6);
    assert((b + seq![','] + a).len() > 6);
    assert((a + seq![','] + a).len() > 6);
    assert(a != "all"@ && a != "common"@);
    assert(names_rules(ab));
    assert(names_rules(aa));
    assert(ba.contains(ab[0]) && ba.contains(ab[1]) && ab.contains(ba[0]) && ab.contains(ba[1]))
        by {
        assert(ba[1] == ab[0]);
        assert(ba[0] == ab[1]);
    }
    law_rule_lists_depend_only_on_names(ab, ba);
    assert(single.contains(aa[0]) && single.contains(aa[1]) && aa.contains(single[0])) by {
        assert(single[0] == aa[0]);
        assert(single[0] == aa[1]);
    }
    law_rule_lists_depend_only_on_names(aa, single);
}

impl RuleSet {
    /// Images must have an `alt` attribute.
    pub const IMG_ALT: u8 = 1;

    /// The `html` element must have a `lang` attribute.
    pub const HTML_LANG: u8 = 2;

    /// Buttons must have an explicit `type`.
    pub const BUTTON_TYPE: u8 = 4;

    /// Iframes must have a `title`.
    pub const IFRAME_TITLE: u8 = 8;

    /// The document must begin with an HTML doctype.
    pub const DOCTYPE_HTML: u8 = 16;

    /// Errors of the HTML tokenizer are reported.
    pub const PARSE_ERROR: u8 = 32;

    /// The mask of all rules together.
    pub const ALL_MASK: u8 = 63;

    /// The bit mask of the set.
    pub closed spec fn mask(self) -> u8 {
        self.0
    }

    /// The profile of common rules: only `img-alt`.
    pub fn common() -> (r: RuleSet)
        ensures
            r.mask() == Self::IMG_ALT,
    {
        RuleSet(Self::IMG_ALT)
    }

    /// Every rule.
    pub fn all() -> (r: RuleSet)
        ensures
            r.mask() == Self::ALL_MASK,
    {
        RuleSet(Self::ALL_MASK)
    }

    /// Whether any bit of `rule` is in the set.
    pub fn contains(self, rule: u8) -> (r: bool)
        ensures
            r == (self.mask() & rule != 0),
    {
        self.0 & rule != 0
    }

    /// Two rule sets are equal exactly when their masks are.
    pub proof fn lemma_mask_determines(a: RuleSet, b: RuleSet)
        ensures
            a == b <==> a.mask() == b.mask(),
    {
    }

    /// Parses the value of `--rules`: `all`, `common`, or a comma-separated list of rule names.
    pub fn parse(value: &str) -> (r: Result<RuleSet, String>)
        ensures
            match r {
                Ok(set) => rules_from_text(value@) == Ok::<u8, Seq<char>>(set.mask()),
                Err(e) => rules_from_text(value@) == Err::<u8, Seq<char>>(e@),
            },
    {
        if text_eq(value, "all") {
            return Ok(Self::all());
        }
        if text_eq(value, "common") {
            return Ok(Self::common());
        }
        let chars = chars_of(value);
        let mut bits: u8 = 0;
        let mut start: usize = 0;
        let mut i: usize = 0;
        while i < chars.len()
            invariant
                chars@ == value@,
                value@ != "all"@,
                value@ != "common"@,
                start <= i <= chars@.len(),
                split_on(chars@.take(i as int), ',').len() >= 1,
                parse_rule_names(split_on(chars@.take(i as int), ',').drop_last()) == Ok::<
                    u8,
                    Seq<char>,
                >(bits),
                split_on(chars@.take(i as int), ',').last() == chars@.subrange(
                    start as int,
                    i as int,
                ),
            decreases chars@.len() - i,
        {
            let ghost before = split_on(chars@.take(i as int), ',');
            assert(chars@.take(i + 1).drop_last() =~= chars@.take(i as int));
            proof {
                lemma_split_on_nonempty(chars@.take(i + 1), ',');
            }
            if chars[i] == ',' {
                let piece = value.substring_char(start, i);
                assert(before =~= before.drop_last().push(before.last()));
                match Self::piece_step(bits, piece) {
                    Ok(b) => {
                        bits = b;
                    },
                    Err(e) => {
                        proof {
                            lemma_split_on_prefix(value@, ',', i + 1, value@.len() as int);
                            assert(value@.take(value@.len() as int) =~= value@);
                            assert(chars@.take(i + 1) =~= value@.take(i + 1));
                            assert(split_on(value@.take(i + 1), ',').drop_last() =~= before);
                            assert(parse_rule_names(before) == Err::<u8, Seq<char>>(e@));
                            assert(split_on(value@, ',').take(before.len() as int) == before);
                            lemma_parse_rule_names_error_prefix(before, split_on(value@, ','));
                            assert(parse_rule_names(split_on(value@, ',')) == Err::<u8, Seq<char>>(e@));

                        }
                        return Err(e);
                    },
                }
                start = i + 1;
                assert(split_on(chars@.take(i + 1), ',').drop_last() =~= before);
            } else {
                assert(chars@.subrange(start as int, i + 1) =~= chars@.subrange(
                    start as int,
                    i as int,
                ).push(chars@[i as int]));
                assert(split_on(chars@.take(i + 1), ',').drop_last() =~= before.drop_last());
            }
            i = i + 1;
        }
        assert(chars@.take(i as int) =~= value@);
        let pieces = Ghost(split_on(value@, ','));
        assert(pieces@ =~= pieces@.drop_last().push(pieces@.last()));
        let piece = value.substring_char(start, i);
        match Self::piece_step(bits, piece) {
            Ok(b) => Ok(RuleSet(b)),
            Err(e) => Err(e),
        }
    }

    /// Adds the rule named `piece` to `bits`, or says why `piece` is no rule name.
    fn piece_step(bits: u8, piece: &str) -> (r: Result<u8, String>)
        ensures
            match r {
                Ok(b) => piece@.len() > 0 && rule_bit(piece@) is Some && b == (bits | rule_bit(
                    piece@,
                ).unwrap()),
                Err(e) => {
                    &&& piece@.len() == 0 ==> e@ == "--rules cannot be empty"@
                    &&& piece@.len() > 0 ==> rule_bit(piece@) is None && e@ == "unknown rule: "@
                        + piece@
                },
            },
    {
        if piece.is_empty() {
            return Err("--rules cannot be empty".to_owned());
        }
        let bit = if text_eq(piece, "img-alt") {
            Self::IMG_ALT
        } else if text_eq(piece, "html-lang") {
            Self::HTML_LANG
        } else if text_eq(piece, "button-type") {
            Self::BUTTON_TYPE
        } else if text_eq(piece, "iframe-title") {
            Self::IFRAME_TITLE
        } else if text_eq(piece, "doctype-html") {
            Self::DOCTYPE_HTML
        } else if text_eq(piece, "parse-error") {
            Self::PARSE_ERROR
        } else {
            let mut message = "unknown rule: ".to_owned();
            message.append(piece);
            return Err(message);
        };
        Ok(bits | bit)
    }
}


/// An error that kept the linter from checking an input at all.
#[derive(Debug)]
pub struct OperationalError {
    pub path: Option<String>,
    pub message: String,
}

/// One finding, located in its input by byte offsets and by line and column.
#[derive(Debug)]
pub struct Diagnostic {
    pub rule: &'static str,
    pub severity: &'static str,
    pub message: String,
    pub byte_start: usize,
    pub byte_end: usize,
    pub line: usize,
    pub column: usize,
    pub help: Option<&'static str>,
}

/// The findings of one input.
#[derive(Debug)]
pub struct FileReport {
    pub path: String,
    pub bytes: u64,
    pub diagnostics: Vec<Diagnostic>,
    pub truncated: bool,
}

/// Totals over a whole run.
#[derive(Debug)]
pub struct Summary {
    pub files: u64,
    pub bytes: u64,
    pub findings: u64,
    pub operational_errors: u64,
    pub truncated: bool,
}

/// The result of a whole run.
#[derive(Debug)]
pub struct Report {
    pub schema_version: u8,
    pub status: &'static str,
    pub files: Vec<FileReport>,
    pub errors: Vec<OperationalError>,
    pub summary: Summary,
}

/// The sum of the sizes of `files`.
pub open spec fn total_bytes(files: Seq<FileReport>) -> int
    decreases files.len(),
{
    if files.len() == 0 {
        0
    } else {
        total_bytes(files.drop_last()) + files.last().bytes
    }
}

/// The number of findings over all of `files`.
pub open spec fn total_findings(files: Seq<FileReport>) -> int
    decreases files.len(),
{
    if files.len() == 0 {
        0
    } else {
        total_findings(files.drop_last()) + files.last().diagnostics@.len()
    }
}

/// Whether any of `files` dropped findings at its cap.
pub open spec fn any_truncated(files: Seq<FileReport>) -> bool {
    exists|i: int| 0 <= i < files.len() && #[trigger] files[i].truncated
}

/// The status of a run with `error_count` operational errors and `findings` findings.
pub open spec fn status_for(error_count: int, findings: int) -> Seq<char> {
    if error_count != 0 {
        "error"@
    } else if findings != 0 {
        "findings"@
    } else {
        "clean"@
    }
}

/// The process exit code that a status stands for.
pub open spec fn exit_code_for(status: Seq<char>) -> i32 {
    if status == "clean"@ {
        0
    } else if status == "findings"@ {
        1
    } else {
        2
    }
}

/// The totals of a prefix never exceed those of the whole sequence.
pub proof fn lemma_totals_prefix(files: Seq<FileReport>, i: int)
    requires
        0 <= i <= files.len(),
    ensures
        0 <= total_bytes(files.take(i)) <= total_bytes(files),
        0 <= total_findings(files.take(i)) <= total_findings(files),
    decreases files.len() - i,
{
    lemma_totals_nonnegative(files.take(i));
    if i < files.len() {
        lemma_totals_prefix(files, i + 1);
        assert(files.take(i + 1).drop_last() =~= files.take(i));
    } else {
        assert(files.take(i) =~= files);
    }
}

/// Totals are never negative.
pub proof fn lemma_totals_nonnegative(files: Seq<FileReport>)
    ensures
        total_bytes(files) >= 0,
        total_findings(files) >= 0,
    decreases files.len(),
{
    if files.len() > 0 {
        lemma_totals_nonnegative(files.drop_last());
    }
}

/// The totals of a run add up over its files: none for no file, a file's own bytes and
/// findings for one file, and the sum of the parts for two runs of files put together.
pub proof fn law_totals_add_up(a: Seq<FileReport>, b: Seq<FileReport>, f: FileReport)
    ensures
        total_bytes(Seq::<FileReport>::empty()) == 0,
        total_findings(Seq::<FileReport>::empty()) == 0,
        total_bytes(seq![f]) == f.bytes,
        total_findings(seq![f]) == f.diagnostics@.len(),
        total_bytes(a + b) == total_bytes(a) + total_bytes(b),
        total_findings(a + b) == total_findings(a) + total_findings(b),
        !any_truncated(Seq::<FileReport>::empty()),
        any_truncated(seq![f]) == f.truncated,
        any_truncated(a + b) == (any_truncated(a) || any_truncated(b)),
    decreases b.len(),
{
    let one: Seq<FileReport> = seq![f];
    assert(one.drop_last() =~= Seq::<FileReport>::empty());
    if b.len() > 0 {
        law_totals_add_up(a, b.drop_last(), f);
        assert((a + b).drop_last() =~= a + b.drop_last());
    } else {
        assert(a + b =~= a);
    }
    if any_truncated(a + b) {
        let i = choose|i: int| 0 <= i < (a + b).len() && #[trigger] (a + b)[i].truncated;
        if i < a.len() {
            assert(a[i] == (a + b)[i]);
        } else {
            assert(b[i - a.len()] == (a + b)[i]);
        }
    }
    if any_truncated(a) {
        let i = choose|i: int| 0 <= i < a.len() && #[trigger] a[i].truncated;
        assert((a + b)[i] == a[i]);
    }
    if any_truncated(b) {
        let i = choose|i: int| 0 <= i < b.len() && #[trigger] b[i].truncated;
        assert((a + b)[a.len() + i] == b[i]);
    }
    if f.truncated {
        assert(one[0].truncated);
    }
}

/// A run that met operational errors exits with 2; otherwise it exits with 1 when it found
/// something and with 0 when it found nothing.
pub proof fn law_exit_code_of_status(error_count: int, findings: int)
    ensures
        exit_code_for(status_for(error_count, findings)) == (if error_count != 0 {
            2i32
        } else if findings != 0 {
            1i32
        } else {
            0i32
        }),
{
    reveal_strlit("error");
    reveal_strlit("findings");
    reveal_strlit("clean");
    assert("error"@[0] != "clean"@[0]);
    assert("error"@.len() != "findings"@.len());
    assert("findings"@.len() != "clean"@.len());
}

impl Report {
    /// Builds a report from the files checked and the operational errors met.
    pub fn from_parts(files: Vec<FileReport>, errors: Vec<OperationalError>) -> (r: Report)
        requires
            total_bytes(files@) <= u64::MAX,
            total_findings(files@) <= u64::MAX,
        ensures
            r.schema_version == 1,
            r.files == files,
            r.errors == errors,
            r.summary.files == files@.len(),
            r.summary.bytes == total_bytes(files@),
            r.summary.findings == total_findings(files@),
            r.summary.operational_errors == errors@.len(),
            r.summary.truncated == any_truncated(files@),
            forall|i: int| 0 <= i < files@.len() && #[trigger] files@[i].truncated ==> r.summary.truncated,
            r.summary.truncated ==> exists|i: int| 0 <= i < files@.len() && #[trigger] files@[i].truncated,
            r.status@ == status_for(errors@.len() as int, total_findings(files@)),
    {
        let mut bytes: u64 = 0;
        let mut findings: u64 = 0;
        let mut truncated = false;
        let mut i: usize = 0;
        while i < files.len()
            invariant
                i <= files@.len(),
                total_bytes(files@) <= u64::MAX,
                total_findings(files@) <= u64::MAX,
                bytes == total_bytes(files@.take(i as int)),
                findings == total_findings(files@.take(i as int)),
                truncated == exists|j: int| 0 <= j < i && #[trigger] files@[j].truncated,
            decreases files@.len() - i,
        {
            proof {
                lemma_totals_prefix(files@, i + 1);
                assert(files@.take(i + 1).drop_last() =~= files@.take(i as int));
            }
            bytes = bytes + files[i].bytes;
            findings = findings + files[i].diagnostics.len() as u64;
            truncated = truncated || files[i].truncated;
            i = i + 1;
        }
        assert(files@.take(i as int) =~= files@);
        let status = if errors.len() != 0 {
            "error"
        } else if findings != 0 {
            "findings"
        } else {
            "clean"
        };
        let summary = Summary {
            files: files.len() as u64,
            bytes,
            findings,
            operational_errors: errors.len() as u64,
            truncated,
        };
        Report { schema_version: 1, status, summary, files, errors }
    }

    /// A report that holds one operational error and nothing else.
    pub fn operational(message: String) -> (r: Report)
        ensures
            r.schema_version == 1,
            r.files@.len() == 0,
            r.errors@.len() == 1,
            r.errors@[0].path is None,
            r.errors@[0].message == message,
            r.summary == (Summary {
                files: 0,
                bytes: 0,
                findings: 0,
                operational_errors: 1,
                truncated: false,
            }),
            r.status@ == "error"@,
    {
        let mut errors = Vec::new();
        errors.push(OperationalError { path: None, message });
        let r = Self::from_parts(Vec::new(), errors);
        assert(!any_truncated(r.files@));
        r
    }

    /// The process exit code of the report: 0 when clean, 1 with findings, 2 otherwise.
    pub fn exit_code(&self) -> (r: i32)
        ensures
            r == exit_code_for(self.status@),
    {
        if text_eq(self.status, "clean") {
            0
        } else if text_eq(self.status, "findings") {
            1
        } else {
            2
        }
    }
}


/// A finding before it is located by line and column.
#[derive(Debug)]
pub struct DiagnosticDraft {
    pub rule: &'static str,
    pub severity: &'static str,
    pub message: String,
    pub byte_start: usize,
    pub byte_end: usize,
    pub help: Option<&'static str>,
}

/// Whether `s` never decreases.
pub open spec fn nondecreasing(s: Seq<usize>) -> bool {
    forall|i: int, j: int| 0 <= i <= j < s.len() ==> s[i] <= s[j]
}

/// Whether `k` is an index of `starts` whose entry is at most `offset` while the next entry,
/// where there is one, lies after it. On sorted `starts` this is the last entry not after
/// `offset`.
pub open spec fn is_line_index(starts: Seq<usize>, offset: int, k: int) -> bool {
    &&& 0 <= k < starts.len()
    &&& starts[k] <= offset
    &&& k + 1 < starts.len() ==> offset < starts[k + 1]
}

/// The smaller of two offsets.
pub open spec fn min_offset(a: usize, b: usize) -> usize {
    if a <= b {
        a
    } else {
        b
    }
}

impl DiagnosticDraft {
    /// Locates the draft: its start offset, clamped to the input, falls on the line that begins
    /// at the last of `line_starts` not after it; lines and columns count from 1.
    pub fn resolve(self, input_len: usize, line_starts: &[usize]) -> (d: Diagnostic)
        requires
            line_starts@.len() > 0,
            line_starts@[0] <= min_offset(self.byte_start, input_len),
            input_len < usize::MAX,
        ensures
            d.rule == self.rule,
            d.severity == self.severity,
            d.message == self.message,
            d.byte_start == self.byte_start,
            d.byte_end == self.byte_end,
            d.help == self.help,
            1 <= d.line <= line_starts@.len(),
            line_starts@[d.line - 1] <= min_offset(self.byte_start, input_len),
            d.column == min_offset(self.byte_start, input_len) - line_starts@[d.line - 1] + 1,
            d.column >= 1,
            is_line_index(
                line_starts@,
                min_offset(self.byte_start, input_len) as int,
                d.line - 1,
            ),
            nondecreasing(line_starts@) ==> forall|i: int|
                0 <= i < line_starts@.len() ==> (line_starts@[i] <= min_offset(
                    self.byte_start,
                    input_len,
                ) <==> i < d.line),
    {
        let offset: usize = if self.byte_start <= input_len {
            self.byte_start
        } else {
            input_len
        };
        // The first index whose line start lies after the offset.
        let mut low: usize = 0;
        let mut high: usize = line_starts.len();
        while low < high
            invariant
                low <= high <= line_starts@.len(),
                line_starts@[0] <= offset,
                low == 0 || line_starts@[low - 1] <= offset,
                high == line_starts@.len() || offset < line_starts@[high as int],
            decreases high - low,
        {
            let middle: usize = low + (high - low) / 2;
            if line_starts[middle] <= offset {
                low = middle + 1;
            } else {
                high = middle;
            }
        }
        let line_index: usize = low - 1;
        let line_start: usize = line_starts[line_index];
        proof {
            if nondecreasing(line_starts@) {
                assert forall|i: int| 0 <= i < line_starts@.len() implies (line_starts@[i]
                    <= offset <==> i < low) by {
                    if i < low {
                        assert(line_starts@[i] <= line_starts@[low - 1]);
                    } else {
                        assert(line_starts@[high as int] <= line_starts@[i]);
                    }
                }
            }
        }
        Diagnostic {
            rule: self.rule,
            severity: self.severity,
            message: self.message,
            byte_start: self.byte_start,
            byte_end: self.byte_end,
            line: line_index + 1,
            column: offset - line_start + 1,
            help: self.help,
        }
    }
}

} // verus!
