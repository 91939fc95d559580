use adblock::filters::cosmetic::{CosmeticFilter, CosmeticFilterError, CosmeticFilterMask};
use core::fmt::{Result as FmtResult, Write};
use cssparser::{Parser, ParserInput};
use selectors::parser::Selector;
use std::fmt::{Display, Error, Formatter};

fn is_valid_css_selector(selector: &str) -> bool {
    let mut pi = ParserInput::new(selector);
    let mut parser = Parser::new(&mut pi);
    let r = Selector::parse(&SelectorParseImpl, &mut parser);
    r.is_ok()
}

struct SelectorParseImpl;

impl<'i> selectors::parser::Parser<'i> for SelectorParseImpl {
    type Impl = SelectorImpl;
    type Error = selectors::parser::SelectorParseErrorKind<'i>;
}

#[derive(Debug, Clone)]
struct SelectorImpl;

impl selectors::parser::SelectorImpl for SelectorImpl {
    type ExtraMatchingData = ();
    type AttrValue = DummyValue;
    type Identifier = DummyValue;
    type ClassName = DummyValue;
    type LocalName = String;
    type NamespaceUrl = String;
    type NamespacePrefix = DummyValue;
    type BorrowedNamespaceUrl = String;
    type BorrowedLocalName = String;
    type NonTSPseudoClass = NonTSPseudoClass;
    type PseudoElement = PseudoElement;
}

#[derive(Debug, Clone, PartialEq, Eq, Default)]
struct DummyValue;

impl Display for DummyValue {
    fn fmt(&self, _: &mut Formatter) -> Result<(), Error> { Ok(()) }
}

impl<'a> From<&'a str> for DummyValue {
    fn from(_: &'a str) -> Self { DummyValue }
}

#[derive(Clone, PartialEq, Eq)]
struct NonTSPseudoClass;

impl selectors::parser::NonTSPseudoClass for NonTSPseudoClass {
    type Impl = SelectorImpl;
    fn is_active_or_hover(&self) -> bool { false }
}

impl cssparser::ToCss for NonTSPseudoClass {
    fn to_css<W: Write>(&self, _: &mut W) -> FmtResult { Ok(()) }
}

#[derive(Clone, PartialEq, Eq)]
struct PseudoElement;

impl selectors::parser::PseudoElement for PseudoElement {
    type Impl = SelectorImpl;

    fn supports_pseudo_class(&self, _pseudo_class: &NonTSPseudoClass) -> bool { true }

    fn valid_after_slotted(&self) -> bool { true }
}

impl cssparser::ToCss for PseudoElement {
    fn to_css<W: Write>(&self, _dest: &mut W) -> FmtResult { Ok(()) }
}

#[test]
fn bad_selector_inputs() {
    assert!(!is_valid_css_selector(r#"rm -rf ./*"#));
    assert!(!is_valid_css_selector(r#"javascript:alert("hacked")"#));
    assert!(!is_valid_css_selector(r#"This is not a CSS selector."#));
    assert!(!is_valid_css_selector(r#"./malware.sh"#));
    assert!(!is_valid_css_selector(r#"https://safesite.ru"#));
    assert!(!is_valid_css_selector(r#"(function(){var e=60;return String.fromCharCode(e.charCodeAt(0))})();"#));
    assert!(!is_valid_css_selector(r#"#!/usr/bin/sh"#));
}

#[test]
fn checked_parse_refuses_bad_selectors() {
    for line in ["##rm -rf ./*", "example.com##./malware.sh", "###!/usr/bin/sh", "##", "##.[x]"] {
        assert_eq!(
            CosmeticFilter::parse_checked(line, false, is_valid_css_selector).unwrap_err(),
            CosmeticFilterError::InvalidCssSelector
        );
    }
}

#[test]
fn checked_parse_accepts_what_parse_accepts_with_a_valid_selector() {
    for line in [
        "##div.popup",
        "example.com##.ad",
        r#"u00p.com##div[class^="adv-box"]"#,
        "downloadsource.*##.date:not(dt):style(display: block !important;)",
        "###неделя",
        r#"rarbg.to##a[href][target="_blank"] > button"#,
    ] {
        let plain = CosmeticFilter::parse(line, true).unwrap();
        let checked = CosmeticFilter::parse_checked(line, true, is_valid_css_selector).unwrap();
        assert_eq!(plain.selector, checked.selector);
        assert_eq!(plain.style, checked.style);
        assert_eq!(plain.mask, checked.mask);
        assert_eq!(plain.key, checked.key);
        assert_eq!(plain.hostnames, checked.hostnames);
        assert_eq!(plain.entities, checked.entities);
        assert_eq!(plain.raw_line, checked.raw_line);
    }
}

#[test]
fn checked_parse_asks_nothing_about_scripts() {
    let script = CosmeticFilter::parse_checked("##+js(rm -rf ./*)", false, |_: &str| false).unwrap();
    assert_eq!(script.selector, "rm -rf ./*");
    assert!(script.mask.contains(CosmeticFilterMask::SCRIPT_INJECT));
}

#[test]
fn checked_parse_reports_earlier_errors_first() {
    assert_eq!(
        CosmeticFilter::parse_checked("no separator", false, |_: &str| false).unwrap_err(),
        CosmeticFilterError::MissingSharp
    );
    assert_eq!(
        CosmeticFilter::parse_checked("##./x:has(y)", false, |_: &str| false).unwrap_err(),
        CosmeticFilterError::UnsupportedSyntax
    );
    assert_eq!(
        CosmeticFilter::parse_checked("##.x", false, |_: &str| false).unwrap_err(),
        CosmeticFilterError::InvalidCssSelector
    );
    assert!(CosmeticFilter::parse_checked("##./x", false, |_: &str| true).is_ok());
}
