//! Cosmetic rules: page-content filtering by CSS selector, and script
//! injection. A rule line is parsed into a `CosmeticFilter`.
use vstd::prelude::*;
use vstd::utf8::is_ascii_chars;
use vstd::slice::slice_subrange;
use crate::filters::hostnames::{
    parse_scope, scope_error, scope_hashes, scope_is_unicode, split_at_commas, ScopeSets,
};
use crate::text::{
    all_ascii, chars_of, find_char, has_prefix_at, index_of, starts_with_at, string_of,
};
use crate::utils::{is_sorted_set_of, is_strictly_sorted, sorted_intersects, strictly_sorted};

verus! {

/// Why a line was not accepted as a cosmetic rule.
#[derive(Debug, Clone, Copy, PartialEq, Eq, Structural)]
pub enum CosmeticFilterError {
    PunycodeError,
    InvalidStyleSpecifier,
    UnsupportedSyntax,
    MissingSharp,
    InvalidCssStyle,
    InvalidCssSelector,
}

/// Boolean flags of a cosmetic rule, one bit each.
#[derive(Debug, Clone, Copy, PartialEq, Eq, Structural)]
pub struct CosmeticFilterMask {
    pub bits: u8,
}

impl CosmeticFilterMask {
    /// The rule is an exception (`#@#`): it lifts a hide instead of adding one.
    pub const UNHIDE: u8 = 1;

    /// The rule injects a scriptlet; its selector is the invocation.
    pub const SCRIPT_INJECT: u8 = 2;

    /// The rule holds a character outside ASCII, in its scope or its selector.
    pub const IS_UNICODE: u8 = 4;

    /// The selector is a simple class selector, indexed by its class.
    pub const IS_CLASS_SELECTOR: u8 = 8;

    /// The selector is a simple id selector, indexed by its id.
    pub const IS_ID_SELECTOR: u8 = 16;

    /// The selector is a simple `href` attribute selector.
    pub const IS_HREF_SELECTOR: u8 = 32;

    /// No flag at all. Every mask contains it.
    pub const NONE: u8 = 0;

    /// Whether every flag of `flags` is set in `self`.
    pub open spec fn has(self, flags: u8) -> bool {
        self.bits & flags == flags
    }

    /// Tests whether every flag of `flags` is set.
    pub fn contains(&self, flags: u8) -> (b: bool)
        ensures
            b == self.has(flags),
    {
        self.bits & flags == flags
    }

    /// The bits of a mask with exactly the given flags.
    pub open spec fn bits_of(
        unhide: bool,
        script_inject: bool,
        is_unicode: bool,
        is_class: bool,
        is_id: bool,
        is_href: bool,
    ) -> u8 {
        (if unhide { 1u8 } else { 0u8 }) | (if script_inject { 2u8 } else { 0u8 })
            | (if is_unicode { 4u8 } else { 0u8 }) | (if is_class { 8u8 } else { 0u8 })
            | (if is_id { 16u8 } else { 0u8 }) | (if is_href { 32u8 } else { 0u8 })
    }

    /// The mask with exactly the given flags.
    pub fn from_flags(
        unhide: bool,
        script_inject: bool,
        is_unicode: bool,
        is_class: bool,
        is_id: bool,
        is_href: bool,
    ) -> (mask: CosmeticFilterMask)
        ensures
            mask.bits == Self::bits_of(unhide, script_inject, is_unicode, is_class, is_id, is_href),
            mask.has(Self::UNHIDE) == unhide,
            mask.has(Self::SCRIPT_INJECT) == script_inject,
            mask.has(Self::IS_UNICODE) == is_unicode,
            mask.has(Self::IS_CLASS_SELECTOR) == is_class,
            mask.has(Self::IS_ID_SELECTOR) == is_id,
            mask.has(Self::IS_HREF_SELECTOR) == is_href,
    {
        let a: u8 = if unhide { 1 } else { 0 };
        let b: u8 = if script_inject { 2 } else { 0 };
        let c: u8 = if is_unicode { 4 } else { 0 };
        let d: u8 = if is_class { 8 } else { 0 };
        let e: u8 = if is_id { 16 } else { 0 };
        let f: u8 = if is_href { 32 } else { 0 };
        let bits: u8 = a | b | c | d | e | f;
        proof {
            Self::lemma_bits_of(unhide, script_inject, is_unicode, is_class, is_id, is_href);
        }
        CosmeticFilterMask { bits }
    }

    /// Each flag can be read back from the bits that `bits_of` assembles.
    pub proof fn lemma_bits_of(
        unhide: bool,
        script_inject: bool,
        is_unicode: bool,
        is_class: bool,
        is_id: bool,
        is_href: bool,
    )
        ensures
            ({
                let m = CosmeticFilterMask {
                    bits: Self::bits_of(unhide, script_inject, is_unicode, is_class, is_id, is_href),
                };
                &&& m.has(Self::UNHIDE) == unhide
                &&& m.has(Self::SCRIPT_INJECT) == script_inject
                &&& m.has(Self::IS_UNICODE) == is_unicode
                &&& m.has(Self::IS_CLASS_SELECTOR) == is_class
                &&& m.has(Self::IS_ID_SELECTOR) == is_id
                &&& m.has(Self::IS_HREF_SELECTOR) == is_href
            }),
    {
        let a: u8 = if unhide { 1 } else { 0 };
        let b: u8 = if script_inject { 2 } else { 0 };
        let c: u8 = if is_unicode { 4 } else { 0 };
        let d: u8 = if is_class { 8 } else { 0 };
        let e: u8 = if is_id { 16 } else { 0 };
        let f: u8 = if is_href { 32 } else { 0 };
        assert({
            let m = a | b | c | d | e | f;
            &&& (m & 1 == 1) == (a == 1)
            &&& (m & 2 == 2) == (b == 2)
            &&& (m & 4 == 4) == (c == 4)
            &&& (m & 8 == 8) == (d == 8)
            &&& (m & 16 == 16) == (e == 16)
            &&& (m & 32 == 32) == (f == 32)
        }) by (bit_vector)
            requires
                a == 0 || a == 1,
                b == 0 || b == 2,
                c == 0 || c == 4,
                d == 0 || d == 8,
                e == 0 || e == 16,
                f == 0 || f == 32,
        ;
    }
}

/// The selector, and the style if there is one, that a rule's body holds.
pub struct RuleBody {
    pub selector: Seq<char>,
    pub style: Option<Seq<char>>,
    pub script_inject: bool,
}

/// The body is a `+js(...)` scriptlet invocation: it begins with `+js(` and
/// the line ends with `)`.
pub open spec fn is_js_body(line: Seq<char>, start: int) -> bool {
    starts_with_at(line, start, "+js("@) && line.len() - start > 4 && line[line.len() - 1] == ')'
}

/// The body is a `script:` invocation with something behind the colon.
pub open spec fn is_script_body(line: Seq<char>, start: int) -> bool {
    starts_with_at(line, start, "script:"@) && line.len() - start > 7
}

/// The `script:` body has the form `script:inject(...)`: `inject(` follows
/// `script:`, and the line ends with `)`.
pub open spec fn is_inject_body(line: Seq<char>, start: int) -> bool {
    starts_with_at(line, start + 7, "inject("@) && line[line.len() - 1] == ')'
}

/// The payload of a `script:` body: what stands between the brackets of
/// `script:inject(...)`, else all that follows `script:`.
pub open spec fn script_selector(line: Seq<char>, start: int) -> Seq<char> {
    if is_inject_body(line, start) {
        line.subrange(start + 14, line.len() - 1)
    } else {
        line.subrange(start + 7, line.len() as int)
    }
}

/// A colon that no backslash stands in front of.
pub open spec fn is_unescaped_colon(line: Seq<char>, i: int) -> bool {
    line[i] == ':' && !(i > 0 && line[i - 1] == '\\')
}

/// The extended-CSS pseudo-classes that the engine does not support.
pub open spec fn is_unsupported_at(line: Seq<char>, at: int) -> bool {
    ||| starts_with_at(line, at, "-abp-"@)
    ||| starts_with_at(line, at, "contains"@)
    ||| starts_with_at(line, at, "has"@)
    ||| starts_with_at(line, at, "if"@)
    ||| starts_with_at(line, at, "if-not"@)
    ||| starts_with_at(line, at, "matches-css"@)
    ||| starts_with_at(line, at, "matches-css-after"@)
    ||| starts_with_at(line, at, "matches-css-before"@)
    ||| starts_with_at(line, at, "properties"@)
    ||| starts_with_at(line, at, "subject"@)
    ||| starts_with_at(line, at, "xpath"@)
}

/// A well-formed style opener stands behind the colon at `colon`: `style(`
/// follows it, and the line ends with `)`.
pub open spec fn is_style_opener(line: Seq<char>, colon: int) -> bool {
    colon + 6 < line.len() && line[colon + 6] == '(' && line[line.len() - 1] == ')'
}

/// Where the selector ends and, if a style block was found, where its
/// declarations begin.
pub struct PseudoScan {
    pub selector_end: int,
    pub style_start: Option<int>,
}

/// Scans a plain body from `from` on, colon by colon. `found` is what the
/// colons before `from` gave. A later style block replaces an earlier one.
pub open spec fn scan_pseudo(line: Seq<char>, from: int, found: PseudoScan) -> Result<
    PseudoScan,
    CosmeticFilterError,
>
    decreases line.len() - from,
{
    if from < 0 || from >= line.len() {
        Ok(found)
    } else if !is_unescaped_colon(line, from) {
        scan_pseudo(line, from + 1, found)
    } else if starts_with_at(line, from + 1, "style"@) {
        if is_style_opener(line, from) {
            scan_pseudo(
                line,
                from + 1,
                PseudoScan { selector_end: from, style_start: Some(from + 7) },
            )
        } else {
            Err(CosmeticFilterError::InvalidStyleSpecifier)
        }
    } else if is_unsupported_at(line, from + 1) {
        Err(CosmeticFilterError::UnsupportedSyntax)
    } else {
        scan_pseudo(line, from + 1, found)
    }
}

/// The body that begins at `start`, or why it is refused.
pub open spec fn rule_body(line: Seq<char>, start: int) -> Result<RuleBody, CosmeticFilterError> {
    if is_js_body(line, start) {
        Ok(
            RuleBody {
                selector: line.subrange(start + 4, line.len() - 1),
                style: None,
                script_inject: true,
            },
        )
    } else if is_script_body(line, start) {
        Ok(RuleBody { selector: script_selector(line, start), style: None, script_inject: true })
    } else {
        match scan_pseudo(
            line,
            start,
            PseudoScan { selector_end: line.len() as int, style_start: None },
        ) {
            Err(e) => Err(e),
            Ok(found) => Ok(
                RuleBody {
                    selector: line.subrange(start, found.selector_end),
                    style: match found.style_start {
                        Some(s) => Some(line.subrange(s, line.len() - 1)),
                        None => None,
                    },
                    script_inject: false,
                },
            ),
        }
    }
}

/// Positions in the line of what a body holds.
pub struct BodyBounds {
    pub selector_start: usize,
    pub selector_end: usize,
    pub style: Option<(usize, usize)>,
    pub script_inject: bool,
}

impl BodyBounds {
    /// The positions lie in a line of `len` characters.
    pub open spec fn fits(self, len: int) -> bool {
        &&& self.selector_start <= self.selector_end <= len
        &&& self.style matches Some(s) ==> s.0 <= s.1 <= len
    }

    /// The body that the positions cut out of `line`.
    pub open spec fn body_of(self, line: Seq<char>) -> RuleBody {
        RuleBody {
            selector: line.subrange(self.selector_start as int, self.selector_end as int),
            style: match self.style {
                Some(s) => Some(line.subrange(s.0 as int, s.1 as int)),
                None => None,
            },
            script_inject: self.script_inject,
        }
    }
}

/// Tests whether one of the unsupported pseudo-class names stands at `at`.
fn unsupported_at(line: &[char], at: usize) -> (b: bool)
    requires
        at <= line@.len(),
    ensures
        b == is_unsupported_at(line@, at as int),
{
    has_prefix_at(line, at, "-abp-") || has_prefix_at(line, at, "contains") || has_prefix_at(
        line,
        at,
        "has",
    ) || has_prefix_at(line, at, "if") || has_prefix_at(line, at, "if-not") || has_prefix_at(
        line,
        at,
        "matches-css",
    ) || has_prefix_at(line, at, "matches-css-after") || has_prefix_at(
        line,
        at,
        "matches-css-before",
    ) || has_prefix_at(line, at, "properties") || has_prefix_at(line, at, "subject")
        || has_prefix_at(line, at, "xpath")
}

/// Finds the selector and the style in the body of a rule, which begins at
/// `start`.
pub fn parse_body(line: &[char], start: usize) -> (body: Result<BodyBounds, CosmeticFilterError>)
    requires
        start <= line@.len(),
    ensures
        match rule_body(line@, start as int) {
            Ok(b) => body is Ok && body->Ok_0.fits(line@.len() as int) && body->Ok_0.body_of(
                line@,
            ) == b,
            Err(e) => body == Err::<BodyBounds, CosmeticFilterError>(e),
        },
{
    let n = line.len();
    proof {
        reveal_strlit("script:");
        reveal_strlit("inject(");
    }
    if has_prefix_at(line, start, "+js(") && n - start > 4 && line[n - 1] == ')' {
        return Ok(
            BodyBounds {
                selector_start: start + 4,
                selector_end: n - 1,
                style: None,
                script_inject: true,
            },
        );
    }
    if has_prefix_at(line, start, "script:") && n - start > 7 {
        let bounds = if has_prefix_at(line, start + 7, "inject(") && line[n - 1] == ')' {
            proof {
                assert(line@.subrange(start + 7, start + 14)[6] == '(');
            }
            BodyBounds {
                selector_start: start + 14,
                selector_end: n - 1,
                style: None,
                script_inject: true,
            }
        } else {
            BodyBounds {
                selector_start: start + 7,
                selector_end: n,
                style: None,
                script_inject: true,
            }
        };
        return Ok(bounds);
    }
    let mut selector_end: usize = n;
    let mut style: Option<(usize, usize)> = None;
    let mut i: usize = start;
    let ghost first = PseudoScan { selector_end: n as int, style_start: None };
    while i < n
        invariant
            start <= i <= n == line@.len(),
            start <= selector_end <= n,
            style matches Some(s) ==> s.0 <= s.1 == n - 1,
            !is_js_body(line@, start as int),
            !is_script_body(line@, start as int),
            first == (PseudoScan { selector_end: n as int, style_start: None }),
            scan_pseudo(line@, start as int, first) == scan_pseudo(
                line@,
                i as int,
                PseudoScan {
                    selector_end: selector_end as int,
                    style_start: match style {
                        Some(s) => Some(s.0 as int),
                        None => None,
                    },
                },
            ),
        decreases n - i,
    {
        if line[i] == ':' && !(i > 0 && line[i - 1] == '\\') {
            if has_prefix_at(line, i + 1, "style") {
                if n - i > 6 && line[i + 6] == '(' && line[n - 1] == ')' {
                    selector_end = i;
                    style = Some((i + 7, n - 1));
                } else {
                    return Err(CosmeticFilterError::InvalidStyleSpecifier);
                }
            } else if unsupported_at(line, i + 1) {
                return Err(CosmeticFilterError::UnsupportedSyntax);
            }
        }
        i += 1;
    }
    Ok(BodyBounds { selector_start: start, selector_end, style, script_inject: false })
}

/// The characters of a class or id token.
pub open spec fn is_token_char(c: char) -> bool {
    c == '-' || c == '_' || ('0' <= c <= '9') || ('A' <= c <= 'Z') || ('a' <= c <= 'z')
}

/// Where the run of token characters that begins at `from` ends.
pub open spec fn token_end(s: Seq<char>, from: int) -> int
    decreases s.len() - from,
{
    if from < 0 || from >= s.len() {
        s.len() as int
    } else if is_token_char(s[from]) {
        token_end(s, from + 1)
    } else {
        from
    }
}

/// The token ends in the text, at or behind `from`.
pub proof fn lemma_token_end(s: Seq<char>, from: int)
    requires
        0 <= from <= s.len(),
    ensures
        from <= token_end(s, from) <= s.len(),
        forall|j: int| from <= j < token_end(s, from) ==> is_token_char(s[j]),
        token_end(s, from) < s.len() ==> !is_token_char(s[token_end(s, from)]),
    decreases s.len() - from,
{
    if from < s.len() && is_token_char(s[from]) {
        lemma_token_end(s, from + 1);
    }
}

/// The characters that may follow the space behind the token of a simple
/// selector: a combinator, or the start of another class or id.
pub open spec fn is_combinator_start(c: char) -> bool {
    c == '>' || c == '+' || c == '~' || c == '.' || c == '#'
}

/// A selector is simple if the token behind its first character runs to the
/// end, or is followed by `[`, or by a space and then one of `> + ~ . #`.
/// Such a selector is indexed by that token.
pub open spec fn is_simple(s: Seq<char>) -> bool {
    let e = token_end(s, 1);
    ||| e >= s.len()
    ||| s[e] == '['
    ||| (s[e] == ' ' && e + 1 < s.len() && is_combinator_start(s[e + 1]))
}

/// A simple `href` selector holds, from `start` on, an attribute test on
/// `href` by prefix, by substring or by equality, with a quoted value.
pub open spec fn is_simple_href(s: Seq<char>, start: int) -> bool {
    ||| starts_with_at(s, start, "href^=\""@)
    ||| starts_with_at(s, start, "href*=\""@)
    ||| starts_with_at(s, start, "href=\""@)
}

/// The bucket that a selector is indexed under.
#[derive(Debug, Clone, Copy, PartialEq, Eq, Structural)]
pub enum SelectorKind {
    Class,
    Id,
    Href,
    Other,
}

/// The kind of a selector: the first of class, id and `href` that fits.
pub open spec fn selector_kind(s: Seq<char>) -> SelectorKind {
    if s.len() > 0 && s[0] == '.' && is_simple(s) {
        SelectorKind::Class
    } else if s.len() > 0 && s[0] == '#' && is_simple(s) {
        SelectorKind::Id
    } else if starts_with_at(s, 0, "a[h"@) && is_simple_href(s, 2) {
        SelectorKind::Href
    } else if starts_with_at(s, 0, "[h"@) && is_simple_href(s, 1) {
        SelectorKind::Href
    } else {
        SelectorKind::Other
    }
}

/// The token that a class or id selector is indexed by: what stands between
/// its first character and the end of the token.
pub open spec fn selector_key(s: Seq<char>) -> Seq<char> {
    s.subrange(1, token_end(s, 1))
}

/// Tests whether `c` may stand in a class or id token.
fn token_char(c: char) -> (b: bool)
    ensures
        b == is_token_char(c),
{
    c == '-' || c == '_' || (c >= '0' && c <= '9') || (c >= 'A' && c <= 'Z') || (c >= 'a' && c
        <= 'z')
}

/// Finds the end of the token that begins at `from`.
fn scan_token(s: &[char], from: usize) -> (end: usize)
    requires
        from <= s@.len(),
    ensures
        end == token_end(s@, from as int),
        from <= end <= s@.len(),
{
    let mut i: usize = from;
    while i < s.len() && token_char(s[i])
        invariant
            from <= i <= s@.len(),
            token_end(s@, from as int) == token_end(s@, i as int),
        decreases s@.len() - i,
    {
        i += 1;
    }
    i
}

/// `is_simple_selector` on the characters of a selector.
fn simple_selector_chars(s: &[char]) -> (simple: bool)
    ensures
        simple == is_simple(s@),
{
    if s.len() == 0 {
        return true;
    }
    let e = scan_token(s, 1);
    if e >= s.len() {
        return true;
    }
    let c = s[e];
    if c == '[' {
        return true;
    }
    if c == ' ' && s.len() - e > 1 {
        let next = s[e + 1];
        return next == '>' || next == '+' || next == '~' || next == '.' || next == '#';
    }
    false
}

/// `is_simple_href_selector` on the characters of a selector.
fn simple_href_chars(s: &[char], start: usize) -> (simple: bool)
    requires
        start <= s@.len(),
    ensures
        simple == is_simple_href(s@, start as int),
{
    has_prefix_at(s, start, "href^=\"") || has_prefix_at(s, start, "href*=\"") || has_prefix_at(
        s,
        start,
        "href=\"",
    )
}

/// Tests whether a class or id selector can be indexed by its first token.
/// The first character of `selector` is taken to be the `.` or the `#`.
pub fn is_simple_selector(selector: &str) -> (simple: bool)
    ensures
        simple == is_simple(selector@),
{
    let chars = chars_of(selector);
    simple_selector_chars(chars.as_slice())
}

/// Tests whether `selector` holds a simple `href` attribute test at `start`:
/// 2 behind a leading `a[`, 1 behind a leading `[`. Past the end there is
/// none.
pub fn is_simple_href_selector(selector: &str, start: usize) -> (simple: bool)
    ensures
        simple == is_simple_href(selector@, start as int),
{
    let chars = chars_of(selector);
    if start > chars.len() {
        return false;
    }
    simple_href_chars(chars.as_slice(), start)
}

/// Finds the bucket of a selector.
fn classify(s: &[char]) -> (kind: SelectorKind)
    ensures
        kind == selector_kind(s@),
{
    proof {
        reveal_strlit("a[h");
        reveal_strlit("[h");
    }
    if s.len() > 0 && s[0] == '.' && simple_selector_chars(s) {
        SelectorKind::Class
    } else if s.len() > 0 && s[0] == '#' && simple_selector_chars(s) {
        SelectorKind::Id
    } else if has_prefix_at(s, 0, "a[h") && simple_href_chars(s, 2) {
        SelectorKind::Href
    } else if has_prefix_at(s, 0, "[h") && simple_href_chars(s, 1) {
        SelectorKind::Href
    } else {
        SelectorKind::Other
    }
}

/// Validates the declarations of a style block. Every text is accepted.
pub fn is_valid_css_style(style: &str) -> (valid: bool)
    ensures
        valid,
{
    true
}

/// A parsed cosmetic rule.
#[derive(Debug, Clone)]
pub struct CosmeticFilter {
    pub entities: Option<Vec<crate::utils::Hash>>,
    pub hostnames: Option<Vec<crate::utils::Hash>>,
    pub mask: CosmeticFilterMask,
    pub not_entities: Option<Vec<crate::utils::Hash>>,
    pub not_hostnames: Option<Vec<crate::utils::Hash>>,
    pub raw_line: Option<String>,
    pub selector: String,
    pub style: Option<String>,
    pub key: Option<String>,
}

/// A cosmetic rule as plain values.
pub struct CosmeticFilterView {
    pub entities: Option<Seq<u64>>,
    pub hostnames: Option<Seq<u64>>,
    pub mask: CosmeticFilterMask,
    pub not_entities: Option<Seq<u64>>,
    pub not_hostnames: Option<Seq<u64>>,
    pub raw_line: Option<Seq<char>>,
    pub selector: Seq<char>,
    pub style: Option<Seq<char>>,
    pub key: Option<Seq<char>>,
}

/// The values of an optional hash set.
pub open spec fn hashes_view(set: Option<Vec<u64>>) -> Option<Seq<u64>> {
    match set {
        Some(v) => Some(v@),
        None => None,
    }
}

/// The characters of an optional text.
pub open spec fn text_view(text: Option<String>) -> Option<Seq<char>> {
    match text {
        Some(t) => Some(t@),
        None => None,
    }
}

impl View for CosmeticFilter {
    type V = CosmeticFilterView;

    open spec fn view(&self) -> CosmeticFilterView {
        CosmeticFilterView {
            entities: hashes_view(self.entities),
            hostnames: hashes_view(self.hostnames),
            mask: self.mask,
            not_entities: hashes_view(self.not_entities),
            not_hostnames: hashes_view(self.not_hostnames),
            raw_line: text_view(self.raw_line),
            selector: self.selector@,
            style: text_view(self.style),
            key: text_view(self.key),
        }
    }
}

/// A hash set that is present is strictly ascending and not empty.
pub open spec fn is_sorted_set(set: Option<Seq<u64>>) -> bool {
    set matches Some(v) ==> strictly_sorted(v) && v.len() > 0
}

/// A positive set is met when it is absent or shares a hash with the request.
pub open spec fn allows(set: Option<Seq<u64>>, request: Seq<u64>) -> bool {
    set matches Some(v) ==> crate::utils::intersects(v, request)
}

/// A negative set is met when it is absent or shares no hash with the request.
pub open spec fn excludes(set: Option<Seq<u64>>, request: Seq<u64>) -> bool {
    set matches Some(v) ==> !crate::utils::intersects(v, request)
}

impl CosmeticFilterView {
    /// The invariants of a rule: the hash sets are sorted sets; the selector
    /// of a rule that is no script is not empty; a class or id rule begins
    /// with `.` or `#` and has the token behind it as key, which is not
    /// empty, and no other rule has a key; at most one of class, id and
    /// `href` is set; a script rule has no style and none of the three.
    pub open spec fn well_formed(self) -> bool {
        let class = self.mask.has(CosmeticFilterMask::IS_CLASS_SELECTOR);
        let id = self.mask.has(CosmeticFilterMask::IS_ID_SELECTOR);
        let href = self.mask.has(CosmeticFilterMask::IS_HREF_SELECTOR);
        &&& is_sorted_set(self.entities)
        &&& is_sorted_set(self.not_entities)
        &&& is_sorted_set(self.hostnames)
        &&& is_sorted_set(self.not_hostnames)
        &&& !self.mask.has(CosmeticFilterMask::SCRIPT_INJECT) ==> self.selector.len() > 0
        &&& class ==> self.selector.len() > 0 && self.selector[0] == '.'
        &&& id ==> self.selector.len() > 0 && self.selector[0] == '#'
        &&& class || id ==> self.key == Some(selector_key(self.selector)) && self.key->0.len()
            > 0
        &&& !class && !id ==> self.key is None
        &&& !(class && id) && !(class && href) && !(id && href)
        &&& self.mask.has(CosmeticFilterMask::SCRIPT_INJECT) ==> self.style is None && !class
            && !id && !href
    }

    /// The rule names a scope: one of its four hash sets is present.
    pub open spec fn has_hostname_constraint(self) -> bool {
        self.hostnames is Some || self.entities is Some || self.not_hostnames is Some
            || self.not_entities is Some
    }

    /// The rule applies to a request with the given entity and hostname
    /// hashes: each positive set that is present shares a hash with the
    /// request, and no negative set does.
    pub open spec fn matches(self, request_entities: Seq<u64>, request_hostnames: Seq<u64>) -> bool {
        &&& allows(self.hostnames, request_hostnames)
        &&& allows(self.entities, request_entities)
        &&& excludes(self.not_hostnames, request_hostnames)
        &&& excludes(self.not_entities, request_entities)
    }

    /// The rule has declarations of its own: a style that is not empty.
    pub open spec fn is_styled(self) -> bool {
        self.style matches Some(s) && s.len() > 0
    }
}

/// Position of the first `#` of a line: there the scope ends.
pub open spec fn sharp_index(line: Seq<char>) -> int {
    find_char(line, '#', 0)
}

/// An `@` behind the first `#` makes the rule an exception.
pub open spec fn is_unhide(line: Seq<char>) -> bool {
    sharp_index(line) + 1 < line.len() && line[sharp_index(line) + 1] == '@'
}

/// Where the body begins: behind the two characters of `##`, or the three of
/// `#@#`.
pub open spec fn body_start(line: Seq<char>) -> int {
    sharp_index(line) + if is_unhide(line) { 3int } else { 2int }
}

/// The hostnames of the scope, as they are written.
pub open spec fn scope_parts(line: Seq<char>) -> Seq<Seq<char>> {
    if sharp_index(line) > 0 {
        split_at_commas(line.subrange(0, sharp_index(line)))
    } else {
        Seq::<Seq<char>>::empty()
    }
}

/// A class or id mark with no token behind it, where the selector would be
/// indexed by that token: `.`, `#[x]`, `. > a`.
pub open spec fn is_bare_mark(s: Seq<char>) -> bool {
    s.len() > 0 && (s[0] == '.' || s[0] == '#') && is_simple(s) && token_end(s, 1) <= 1
}

/// A selector that is no CSS whatever validator is asked: it is empty, or
/// it is a bare mark.
pub open spec fn is_hollow_selector(s: Seq<char>) -> bool {
    s.len() == 0 || is_bare_mark(s)
}

/// Why `line` is refused, if it is: it has no `#`, or ends before its
/// separator does; a hostname of its scope has no Punycode form; its body
/// has a malformed style block or an unsupported pseudo-class; its body is
/// no script and its selector is hollow.
pub open spec fn parse_error(line: Seq<char>) -> Option<CosmeticFilterError> {
    if sharp_index(line) >= line.len() {
        Some(CosmeticFilterError::MissingSharp)
    } else if body_start(line) > line.len() {
        Some(CosmeticFilterError::MissingSharp)
    } else if scope_error(scope_parts(line)) {
        Some(CosmeticFilterError::PunycodeError)
    } else {
        match rule_body(line, body_start(line)) {
            Err(e) => Some(e),
            Ok(body) => if !body.script_inject && is_hollow_selector(body.selector) {
                Some(CosmeticFilterError::InvalidCssSelector)
            } else {
                None
            },
        }
    }
}

/// The kind under which the body is indexed. A script has none.
pub open spec fn body_kind(body: RuleBody) -> SelectorKind {
    if body.script_inject {
        SelectorKind::Other
    } else {
        selector_kind(body.selector)
    }
}

/// `rule` is what an accepted `line` parses to.
pub open spec fn is_parse_of(rule: CosmeticFilterView, line: Seq<char>, debug: bool) -> bool {
    let parts = scope_parts(line);
    let body = rule_body(line, body_start(line))->Ok_0;
    let kind = body_kind(body);
    &&& rule.selector == body.selector
    &&& rule.style == body.style
    &&& rule.raw_line == if debug { Some(line) } else { None }
    &&& rule.mask.bits == CosmeticFilterMask::bits_of(
        is_unhide(line),
        body.script_inject,
        scope_is_unicode(parts) || !is_ascii_chars(body.selector),
        kind is Class,
        kind is Id,
        kind is Href,
    )
    &&& rule.key == if kind is Class || kind is Id {
        Some(selector_key(body.selector))
    } else {
        None
    }
    &&& is_sorted_set_of(rule.entities, scope_hashes(parts, false, true))
    &&& is_sorted_set_of(rule.not_entities, scope_hashes(parts, true, true))
    &&& is_sorted_set_of(rule.hostnames, scope_hashes(parts, false, false))
    &&& is_sorted_set_of(rule.not_hostnames, scope_hashes(parts, true, false))
}

/// A sorted set of a scope becomes a field of the rule: absent when empty.
fn into_field(set: Vec<u64>, Ghost(values): Ghost<Seq<u64>>) -> (field: Option<Vec<u64>>)
    requires
        crate::filters::hostnames::holds_sorted(set@, values),
    ensures
        is_sorted_set_of(hashes_view(field), values),
        is_sorted_set(hashes_view(field)),
{
    proof {
        if values.len() > 0 {
            assert(values.contains(values[0]));
            assert(values.to_set().contains(values[0]));
        }
        if set@.len() > 0 {
            assert(set@.to_set().contains(set@[0]));
        }
    }
    if set.len() > 0 {
        Some(set)
    } else {
        None
    }
}

/// Tests whether a hash set is absent, or strictly ascending and not empty.
fn set_is_sorted(set: &Option<Vec<u64>>) -> (b: bool)
    ensures
        b == is_sorted_set(hashes_view(*set)),
{
    match set {
        Some(v) => v.len() > 0 && is_strictly_sorted(v.as_slice()),
        None => true,
    }
}

impl CosmeticFilter {
    /// Parses the rule in `line`. With `debug` the rule keeps the line it was
    /// read from.
    ///
    /// The line is the scope, the separator `##` or `#@#`, and the body. Each
    /// hostname of the scope goes by its hash to one of four sorted sets. The
    /// body is a scriptlet invocation, or a selector with an optional style
    /// block; a selector is classified for indexing. A selector that is
    /// empty, or a bare class or id mark, is refused as `InvalidCssSelector`;
    /// whether any other selector is valid CSS is not decided here: see
    /// `parse_checked` and `check_css`.
    pub fn parse(line: &str, debug: bool) -> (parsed: Result<CosmeticFilter, CosmeticFilterError>)
        ensures
            match parse_error(line@) {
                Some(e) => parsed == Err::<CosmeticFilter, CosmeticFilterError>(e),
                None => parsed is Ok && is_parse_of(parsed->Ok_0@, line@, debug)
                    && parsed->Ok_0@.well_formed(),
            },
    {
        let chars = chars_of(line);
        let cs = chars.as_slice();
        let n = cs.len();
        let sharp = index_of(cs, '#', 0);
        if sharp >= n {
            return Err(CosmeticFilterError::MissingSharp);
        }
        let unhide = n - sharp > 1 && cs[sharp + 1] == '@';
        let skip: usize = if unhide { 3 } else { 2 };
        if n - sharp < skip {
            return Err(CosmeticFilterError::MissingSharp);
        }
        let start = sharp + skip;
        let ghost parts = scope_parts(line@);
        let scope = if sharp > 0 {
            match parse_scope(slice_subrange(cs, 0, sharp)) {
                Ok(sets) => sets,
                Err(e) => {
                    return Err(e);
                },
            }
        } else {
            ScopeSets {
                entities: Vec::new(),
                not_entities: Vec::new(),
                hostnames: Vec::new(),
                not_hostnames: Vec::new(),
                is_unicode: false,
            }
        };
        let bounds = match parse_body(cs, start) {
            Ok(bounds) => bounds,
            Err(e) => {
                return Err(e);
            },
        };
        let sel = slice_subrange(cs, bounds.selector_start, bounds.selector_end);
        let selector = string_of(cs, bounds.selector_start, bounds.selector_end);
        let style = match bounds.style {
            Some(s) => Some(string_of(cs, s.0, s.1)),
            None => None,
        };
        let is_unicode = scope.is_unicode || !all_ascii(sel);
        if !bounds.script_inject && sel.len() == 0 {
            return Err(CosmeticFilterError::InvalidCssSelector);
        }
        let kind = if bounds.script_inject {
            SelectorKind::Other
        } else {
            classify(sel)
        };
        let is_class = matches!(kind, SelectorKind::Class);
        let is_id = matches!(kind, SelectorKind::Id);
        let is_href = matches!(kind, SelectorKind::Href);
        let key = if is_class || is_id {
            let token_end = scan_token(sel, 1);
            if token_end <= 1 {
                return Err(CosmeticFilterError::InvalidCssSelector);
            }
            Some(string_of(sel, 1, token_end))
        } else {
            None
        };
        let mask = CosmeticFilterMask::from_flags(
            unhide,
            bounds.script_inject,
            is_unicode,
            is_class,
            is_id,
            is_href,
        );
        let raw_line = if debug {
            proof {
                assert(cs@.subrange(0, n as int) == line@);
            }
            Some(string_of(cs, 0, n))
        } else {
            None
        };
        let ScopeSets { entities, not_entities, hostnames, not_hostnames, is_unicode: _ } = scope;
        Ok(
            CosmeticFilter {
                entities: into_field(entities, Ghost(scope_hashes(parts, false, true))),
                hostnames: into_field(hostnames, Ghost(scope_hashes(parts, false, false))),
                mask,
                not_entities: into_field(not_entities, Ghost(scope_hashes(parts, true, true))),
                not_hostnames: into_field(not_hostnames, Ghost(scope_hashes(parts, true, false))),
                raw_line,
                selector,
                style,
                key,
            },
        )
    }

    /// Parses the rule in `line` as `parse` does, and has `is_valid_selector`
    /// judge the selector of a rule that is no script: where it says no,
    /// the rule is refused as `InvalidCssSelector`.
    pub fn parse_checked<F: Fn(&str) -> bool>(line: &str, debug: bool, is_valid_selector: F) -> (parsed:
        Result<CosmeticFilter, CosmeticFilterError>)
        requires
            forall|selector: &str| call_requires(is_valid_selector, (selector,)),
        ensures
            match parse_error(line@) {
                Some(e) => parsed == Err::<CosmeticFilter, CosmeticFilterError>(e),
                None => {
                    let body = rule_body(line@, body_start(line@))->Ok_0;
                    let accepted = parsed is Ok && is_parse_of(parsed->Ok_0@, line@, debug)
                        && parsed->Ok_0@.well_formed();
                    if body.script_inject {
                        accepted
                    } else {
                        exists|selector: &str, verdict: bool|
                            {
                                &&& selector@ == body.selector
                                &&& #[trigger] call_ensures(is_valid_selector, (selector,), verdict)
                                &&& if verdict {
                                    accepted
                                } else {
                                    parsed == Err::<CosmeticFilter, CosmeticFilterError>(
                                        CosmeticFilterError::InvalidCssSelector,
                                    )
                                }
                            }
                    }
                },
            },
    {
        let filter = match CosmeticFilter::parse(line, debug) {
            Ok(filter) => filter,
            Err(e) => {
                return Err(e);
            },
        };
        proof {
            let parts = scope_parts(line@);
            let body = rule_body(line@, body_start(line@))->Ok_0;
            let kind = body_kind(body);
            CosmeticFilterMask::lemma_bits_of(
                is_unhide(line@),
                body.script_inject,
                scope_is_unicode(parts) || !is_ascii_chars(body.selector),
                kind is Class,
                kind is Id,
                kind is Href,
            );
        }
        if filter.mask.contains(CosmeticFilterMask::SCRIPT_INJECT) {
            return Ok(filter);
        }
        let selector_is_valid = is_valid_selector(filter.selector.as_str());
        let style_is_valid = match &filter.style {
            Some(style) => is_valid_css_style(style.as_str()),
            None => true,
        };
        filter.check_css(selector_is_valid, style_is_valid)
    }

    /// Applies the verdicts of a CSS validator to a parsed rule. A rule that
    /// is no script needs a valid selector; a rule with a style block needs
    /// valid declarations. The selector is judged first.
    pub fn check_css(self, selector_is_valid: bool, style_is_valid: bool) -> (checked: Result<
        CosmeticFilter,
        CosmeticFilterError,
    >)
        ensures
            checked == if !self.mask.has(CosmeticFilterMask::SCRIPT_INJECT) && !selector_is_valid {
                Err::<CosmeticFilter, CosmeticFilterError>(CosmeticFilterError::InvalidCssSelector)
            } else if self.style is Some && !style_is_valid {
                Err::<CosmeticFilter, CosmeticFilterError>(CosmeticFilterError::InvalidCssStyle)
            } else {
                Ok::<CosmeticFilter, CosmeticFilterError>(self)
            },
    {
        if !self.mask.contains(CosmeticFilterMask::SCRIPT_INJECT) && !selector_is_valid {
            Err(CosmeticFilterError::InvalidCssSelector)
        } else if self.style.is_some() && !style_is_valid {
            Err(CosmeticFilterError::InvalidCssStyle)
        } else {
            Ok(self)
        }
    }

    /// Tests whether the rule meets the invariants of a rule. Rules that
    /// `parse` returns do; a rule that was put together by hand, or read
    /// from storage, may not.
    pub fn is_well_formed(&self) -> (b: bool)
        ensures
            b == self@.well_formed(),
    {
        let class = self.mask.contains(CosmeticFilterMask::IS_CLASS_SELECTOR);
        let id = self.mask.contains(CosmeticFilterMask::IS_ID_SELECTOR);
        let href = self.mask.contains(CosmeticFilterMask::IS_HREF_SELECTOR);
        if !(set_is_sorted(&self.entities) && set_is_sorted(&self.not_entities) && set_is_sorted(
            &self.hostnames,
        ) && set_is_sorted(&self.not_hostnames)) {
            return false;
        }
        if (class && id) || (class && href) || (id && href) {
            return false;
        }
        if self.mask.contains(CosmeticFilterMask::SCRIPT_INJECT) && (self.style.is_some() || class
            || id || href) {
            return false;
        }
        let chars = chars_of(self.selector.as_str());
        if !self.mask.contains(CosmeticFilterMask::SCRIPT_INJECT) && chars.len() == 0 {
            return false;
        }
        if !class && !id {
            return self.key.is_none();
        }
        let mark = if class { '.' } else { '#' };
        if chars.len() == 0 || chars[0] != mark {
            return false;
        }
        let token_end = scan_token(chars.as_slice(), 1);
        if token_end <= 1 {
            return false;
        }
        let token = string_of(chars.as_slice(), 1, token_end);
        match &self.key {
            Some(key) => *key == token,
            None => false,
        }
    }

    /// Tests whether the rule names a scope.
    pub fn has_hostname_constraint(&self) -> (b: bool)
        ensures
            b == self@.has_hostname_constraint(),
    {
        self.hostnames.is_some() || self.entities.is_some() || self.not_hostnames.is_some()
            || self.not_entities.is_some()
    }

    /// Tests whether the rule applies to a request, given the sorted hashes
    /// of the request's entities and hostnames.
    pub fn matches(&self, request_entities: &[crate::utils::Hash], request_hostnames: &[
        crate::utils::Hash
    ]) -> (b: bool)
        requires
            self@.well_formed(),
            strictly_sorted(request_entities@),
            strictly_sorted(request_hostnames@),
        ensures
            b == self@.matches(request_entities@, request_hostnames@),
    {
        if let Some(set) = &self.hostnames {
            if !sorted_intersects(set.as_slice(), request_hostnames) {
                return false;
            }
        }
        if let Some(set) = &self.entities {
            if !sorted_intersects(set.as_slice(), request_entities) {
                return false;
            }
        }
        if let Some(set) = &self.not_hostnames {
            if sorted_intersects(set.as_slice(), request_hostnames) {
                return false;
            }
        }
        if let Some(set) = &self.not_entities {
            if sorted_intersects(set.as_slice(), request_entities) {
                return false;
            }
        }
        true
    }
}

/// The key of a well-formed class or id rule is the token behind the mark:
/// it is not empty, it is a prefix of the selector without its first
/// character, it is made of token characters only, and no token character
/// follows it.
pub proof fn lemma_key_is_token_prefix(rule: CosmeticFilterView)
    requires
        rule.well_formed(),
        rule.mask.has(CosmeticFilterMask::IS_CLASS_SELECTOR) || rule.mask.has(
            CosmeticFilterMask::IS_ID_SELECTOR,
        ),
    ensures
        rule.key is Some,
        rule.key->0.len() > 0,
        rule.key->0.is_prefix_of(rule.selector.skip(1)),
        forall|j: int| 0 <= j < rule.key->0.len() ==> is_token_char(rule.key->0[j]),
        1 + rule.key->0.len() < rule.selector.len() ==> !is_token_char(
            rule.selector[1 + rule.key->0.len() as int],
        ),
{
    let s = rule.selector;
    lemma_token_end(s, 1);
}

/// A rule that is accepted never lands in two buckets: of the class, id and
/// `href` flags at most one is set, and a script has none of them.
pub proof fn lemma_at_most_one_bucket(rule: CosmeticFilterView, line: Seq<char>, debug: bool)
    requires
        parse_error(line) is None,
        is_parse_of(rule, line, debug),
    ensures
        !(rule.mask.has(CosmeticFilterMask::IS_CLASS_SELECTOR) && rule.mask.has(
            CosmeticFilterMask::IS_ID_SELECTOR,
        )),
        !(rule.mask.has(CosmeticFilterMask::IS_CLASS_SELECTOR) && rule.mask.has(
            CosmeticFilterMask::IS_HREF_SELECTOR,
        )),
        !(rule.mask.has(CosmeticFilterMask::IS_ID_SELECTOR) && rule.mask.has(
            CosmeticFilterMask::IS_HREF_SELECTOR,
        )),
        rule.mask.has(CosmeticFilterMask::SCRIPT_INJECT) ==> !rule.mask.has(
            CosmeticFilterMask::IS_CLASS_SELECTOR,
        ) && !rule.mask.has(CosmeticFilterMask::IS_ID_SELECTOR) && !rule.mask.has(
            CosmeticFilterMask::IS_HREF_SELECTOR,
        ),
{
    let parts = scope_parts(line);
    let body = rule_body(line, body_start(line))->Ok_0;
    let kind = body_kind(body);
    CosmeticFilterMask::lemma_bits_of(
        is_unhide(line),
        body.script_inject,
        scope_is_unicode(parts) || !is_ascii_chars(body.selector),
        kind is Class,
        kind is Id,
        kind is Href,
    );
}

/// The four hash sets of an accepted rule are sorted sets: each one that is
/// present is strictly ascending, so nothing occurs twice in it, and holds
/// exactly the hashes of its part of the scope.
pub proof fn lemma_scope_sets_sorted(rule: CosmeticFilterView, line: Seq<char>, debug: bool)
    requires
        parse_error(line) is None,
        is_parse_of(rule, line, debug),
    ensures
        is_sorted_set(rule.entities),
        is_sorted_set(rule.not_entities),
        is_sorted_set(rule.hostnames),
        is_sorted_set(rule.not_hostnames),
        rule.hostnames matches Some(set) ==> set.no_duplicates(),
{
    let parts = scope_parts(line);
    lemma_sorted_set_of(rule.entities, scope_hashes(parts, false, true));
    lemma_sorted_set_of(rule.not_entities, scope_hashes(parts, true, true));
    lemma_sorted_set_of(rule.hostnames, scope_hashes(parts, false, false));
    lemma_sorted_set_of(rule.not_hostnames, scope_hashes(parts, true, false));
}

/// The sorted set of some values is, where present, strictly ascending and
/// not empty.
pub proof fn lemma_sorted_set_of(set: Option<Seq<u64>>, values: Seq<u64>)
    requires
        is_sorted_set_of(set, values),
    ensures
        is_sorted_set(set),
        set matches Some(v) ==> v.no_duplicates(),
{
    if values.len() > 0 {
        assert(values.to_set().contains(values[0]));
    }
}

} // verus!
