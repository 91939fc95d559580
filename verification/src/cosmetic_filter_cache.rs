//! The index of cosmetic rules: rules are sorted into buckets as they come
//! in, and stylesheets are assembled from the buckets for each page.
use vstd::prelude::*;
use vstd::hash_map::StringHashMap;
use vstd::hash_set::StringHashSet;
use vstd::string::StringExecFns;
use crate::filters::cosmetic::{CosmeticFilter, CosmeticFilterMask, CosmeticFilterView};
use crate::filters::hostnames::{
    domain_fits, entity_hashes, get_entity_hashes_from_labels, get_hostname_hashes_from_labels,
    holds_sorted, hostname_hashes, is_label_start, is_name_of, lemma_label_hashes_contain,
    public_suffix_len,
};
use crate::utils::spec_fast_hash;
use crate::text::{join_commas, push_char, texts};
use crate::utils::intersects;

verus! {

/// The registrable domain that `psl::domain_str` finds for `hostname` in the
/// public suffix list that the `psl` crate is compiled with, or nothing
/// where it finds none.
pub uninterp spec fn psl_domain(hostname: Seq<char>) -> Option<Seq<char>>;

/// `hostname` without the dot at its end, if it has one there.
pub open spec fn without_trailing_dot(hostname: Seq<char>) -> Seq<char> {
    if hostname.len() > 0 && hostname.last() == '.' {
        hostname.drop_last()
    } else {
        hostname
    }
}

/// Calls `psl::domain_str`. The list is part of the crate, so the result
/// depends on the hostname alone, and the contract names it. Of a domain
/// that is found it claims what the lookup shows whatever the list holds:
/// the domain is cut from the end of the hostname at a label, a dot at the
/// end of the hostname left aside, and is not empty.
#[verifier::external_body]
fn registrable_domain(hostname: &str) -> (domain: Option<&str>)
    ensures
        match domain {
            Some(d) => psl_domain(hostname@) == Some(d@) && domain_fits(
                without_trailing_dot(hostname@),
                d@,
            ),
            None => psl_domain(hostname@) is None,
        },
{
    psl::domain_str(hostname)
}

/// The views of a sequence of rules.
pub open spec fn rule_views(rules: Seq<CosmeticFilter>) -> Seq<CosmeticFilterView> {
    rules.map_values(|r: CosmeticFilter| r@)
}

/// The views of a sequence of borrowed rules.
pub open spec fn borrowed_views(rules: Seq<&CosmeticFilter>) -> Seq<CosmeticFilterView> {
    rules.map_values(|r: &CosmeticFilter| r@)
}

/// How many of the rules have no style of their own.
pub open spec fn hidden_count(rules: Seq<CosmeticFilterView>) -> nat
    decreases rules.len(),
{
    if rules.len() == 0 {
        0
    } else {
        hidden_count(rules.drop_last()) + if rules.last().is_styled() { 0nat } else { 1nat }
    }
}

/// The selectors of the rules without a style, in order, with commas
/// between them.
pub open spec fn hide_selectors(rules: Seq<CosmeticFilterView>) -> Seq<char>
    decreases rules.len(),
{
    if rules.len() == 0 {
        Seq::<char>::empty()
    } else {
        let init = hide_selectors(rules.drop_last());
        if rules.last().is_styled() {
            init
        } else if hidden_count(rules.drop_last()) == 0 {
            init + rules.last().selector
        } else {
            init + seq![','] + rules.last().selector
        }
    }
}

/// One block `selector {declarations}` and a line end for each rule with a
/// style, in order.
pub open spec fn styled_blocks(rules: Seq<CosmeticFilterView>) -> Seq<char>
    decreases rules.len(),
{
    if rules.len() == 0 {
        Seq::<char>::empty()
    } else {
        let init = styled_blocks(rules.drop_last());
        if rules.last().is_styled() {
            init + rules.last().selector + " {"@ + rules.last().style->0 + "}\n"@
        } else {
            init
        }
    }
}

/// The stylesheet of a list of rules: nothing for no rules; else one block
/// that hides every selector without a style, then the blocks of the rules
/// with a style.
pub open spec fn stylesheet(rules: Seq<CosmeticFilterView>) -> Seq<char> {
    if rules.len() == 0 {
        Seq::<char>::empty()
    } else {
        hide_selectors(rules) + "{display:none !important;}\n"@ + styled_blocks(rules)
    }
}

/// Tests whether a rule has declarations of its own.
fn is_styled(rule: &CosmeticFilter) -> (styled: bool)
    ensures
        styled == rule@.is_styled(),
{
    match &rule.style {
        Some(style) => !style.as_str().is_empty(),
        None => false,
    }
}

/// Writes the stylesheet of `rules`.
pub fn rules_to_stylesheet(rules: &[&CosmeticFilter]) -> (css: String)
    ensures
        css@ == stylesheet(borrowed_views(rules@)),
{
    let mut css = String::new();
    if rules.len() == 0 {
        return css;
    }
    let ghost views = borrowed_views(rules@);
    let mut first = true;
    let mut i: usize = 0;
    while i < rules.len()
        invariant
            i <= rules@.len(),
            views == borrowed_views(rules@),
            css@ == hide_selectors(views.take(i as int)),
            first == (hidden_count(views.take(i as int)) == 0),
        decreases rules@.len() - i,
    {
        proof {
            assert(views.take(i + 1).drop_last() == views.take(i as int));
        }
        if !is_styled(rules[i]) {
            if !first {
                push_char(&mut css, ',');
            }
            first = false;
            css.append(rules[i].selector.as_str());
        }
        i += 1;
    }
    proof {
        assert(views.take(i as int) == views);
    }
    css.append("{display:none !important;}\n");
    let ghost hide = css@;
    let mut j: usize = 0;
    while j < rules.len()
        invariant
            j <= rules@.len(),
            views == borrowed_views(rules@),
            css@ == hide + styled_blocks(views.take(j as int)),
        decreases rules@.len() - j,
    {
        proof {
            assert(views.take(j + 1).drop_last() == views.take(j as int));
        }
        if is_styled(rules[j]) {
            css.append(rules[j].selector.as_str());
            css.append(" {");
            match &rules[j].style {
                Some(style) => {
                    css.append(style.as_str());
                },
                None => {},
            }
            css.append("}\n");
        }
        j += 1;
    }
    css
}

/// The rules among `rules` that apply to a request with the given hashes,
/// in order.
pub open spec fn matching(
    rules: Seq<CosmeticFilterView>,
    request_entities: Seq<u64>,
    request_hostnames: Seq<u64>,
) -> Seq<CosmeticFilterView>
    decreases rules.len(),
{
    if rules.len() == 0 {
        Seq::<CosmeticFilterView>::empty()
    } else {
        let init = matching(rules.drop_last(), request_entities, request_hostnames);
        if rules.last().matches(request_entities, request_hostnames) {
            init.push(rules.last())
        } else {
            init
        }
    }
}

/// Whether two sequences share a value depends on their values only, not on
/// their order.
pub proof fn lemma_intersects_by_values(a: Seq<u64>, b: Seq<u64>, c: Seq<u64>)
    requires
        b.to_set() == c.to_set(),
    ensures
        intersects(a, b) == intersects(a, c),
{
    if intersects(a, b) {
        let x = choose|x: u64| a.contains(x) && b.contains(x);
        assert(b.to_set().contains(x));
    }
    if intersects(a, c) {
        let x = choose|x: u64| a.contains(x) && c.contains(x);
        assert(c.to_set().contains(x));
    }
}

/// Whether a rule applies depends on the values of the request's hashes
/// only, not on their order.
pub proof fn lemma_matches_by_values(
    rule: CosmeticFilterView,
    entities: Seq<u64>,
    other_entities: Seq<u64>,
    hostnames: Seq<u64>,
    other_hostnames: Seq<u64>,
)
    requires
        entities.to_set() == other_entities.to_set(),
        hostnames.to_set() == other_hostnames.to_set(),
    ensures
        rule.matches(entities, hostnames) == rule.matches(other_entities, other_hostnames),
{
    if rule.hostnames is Some {
        lemma_intersects_by_values(rule.hostnames->0, hostnames, other_hostnames);
    }
    if rule.entities is Some {
        lemma_intersects_by_values(rule.entities->0, entities, other_entities);
    }
    if rule.not_hostnames is Some {
        lemma_intersects_by_values(rule.not_hostnames->0, hostnames, other_hostnames);
    }
    if rule.not_entities is Some {
        lemma_intersects_by_values(rule.not_entities->0, entities, other_entities);
    }
}

/// Computes the sorted entity hashes and the sorted hostname hashes of a
/// request, in this order.
pub fn hostname_domain_hashes(hostname: &str, domain: &str) -> (hashes: (
    Vec<crate::utils::Hash>,
    Vec<crate::utils::Hash>,
))
    ensures
        holds_sorted(hashes.0@, entity_hashes(hostname@, domain@)),
        holds_sorted(hashes.1@, hostname_hashes(hostname@, domain@)),
{
    let request_entities = get_entity_hashes_from_labels(hostname, domain);
    let request_hostnames = get_hostname_hashes_from_labels(hostname, domain);
    (request_entities, request_hostnames)
}

/// The selectors of each bucket of a map from token to selectors.
pub open spec fn buckets(map: Map<Seq<char>, Vec<String>>) -> Map<Seq<char>, Seq<Seq<char>>> {
    map.map_values(|bucket: Vec<String>| texts(bucket@))
}

/// `buckets` with `selector` added at the end of the bucket of `key`.
pub open spec fn with_selector(
    buckets: Map<Seq<char>, Seq<Seq<char>>>,
    key: Seq<char>,
    selector: Seq<char>,
) -> Map<Seq<char>, Seq<Seq<char>>> {
    buckets.insert(
        key,
        if buckets.contains_key(key) {
            buckets[key].push(selector)
        } else {
            seq![selector]
        },
    )
}

/// The tokens among `tokens` that are simple rules and have no bucket of
/// complex selectors, in order.
pub open spec fn simple_hits(
    simple: Set<Seq<char>>,
    complex: Map<Seq<char>, Seq<Seq<char>>>,
    tokens: Seq<Seq<char>>,
) -> Seq<Seq<char>>
    decreases tokens.len(),
{
    if tokens.len() == 0 {
        Seq::<Seq<char>>::empty()
    } else {
        let init = simple_hits(simple, complex, tokens.drop_last());
        if simple.contains(tokens.last()) && !complex.contains_key(tokens.last()) {
            init.push(tokens.last())
        } else {
            init
        }
    }
}

/// The complex selectors of the tokens among `tokens` that are simple rules
/// and have a bucket, bucket after bucket in the order of the tokens.
pub open spec fn complex_hits(
    simple: Set<Seq<char>>,
    complex: Map<Seq<char>, Seq<Seq<char>>>,
    tokens: Seq<Seq<char>>,
) -> Seq<Seq<char>>
    decreases tokens.len(),
{
    if tokens.len() == 0 {
        Seq::<Seq<char>>::empty()
    } else {
        let init = complex_hits(simple, complex, tokens.drop_last());
        if simple.contains(tokens.last()) && complex.contains_key(tokens.last()) {
            init + complex[tokens.last()]
        } else {
            init
        }
    }
}

/// Each token with `mark` in front of it.
pub open spec fn with_mark(mark: char, tokens: Seq<Seq<char>>) -> Seq<Seq<char>> {
    tokens.map_values(|t: Seq<char>| seq![mark] + t)
}

/// The index as plain values.
pub struct CosmeticFilterCacheView {
    pub simple_class_rules: Set<Seq<char>>,
    pub simple_id_rules: Set<Seq<char>>,
    pub complex_class_rules: Map<Seq<char>, Seq<Seq<char>>>,
    pub complex_id_rules: Map<Seq<char>, Seq<Seq<char>>>,
    pub specific_rules: Seq<CosmeticFilterView>,
    pub misc_rules: Seq<CosmeticFilterView>,
}

impl CosmeticFilterCacheView {
    /// The index without any rule.
    pub open spec fn empty() -> CosmeticFilterCacheView {
        CosmeticFilterCacheView {
            simple_class_rules: Set::empty(),
            simple_id_rules: Set::empty(),
            complex_class_rules: Map::empty(),
            complex_id_rules: Map::empty(),
            specific_rules: Seq::empty(),
            misc_rules: Seq::empty(),
        }
    }

    /// The index after `rule` came in. Script and exception rules are not
    /// indexed. A rule with a scope goes to the specific rules. A class or
    /// id rule with a key goes by its key to the simple rules if its
    /// selector is the mark and the key and no more, else to the bucket of
    /// complex selectors of that key. Every other rule is a miscellaneous one.
    pub open spec fn add(self, rule: CosmeticFilterView) -> CosmeticFilterCacheView {
        if rule.mask.has(CosmeticFilterMask::SCRIPT_INJECT) || rule.mask.has(
            CosmeticFilterMask::UNHIDE,
        ) {
            self
        } else if rule.has_hostname_constraint() {
            CosmeticFilterCacheView { specific_rules: self.specific_rules.push(rule), ..self }
        } else if rule.mask.has(CosmeticFilterMask::IS_CLASS_SELECTOR) && rule.key is Some {
            if rule.selector == seq!['.'] + rule.key->0 {
                CosmeticFilterCacheView {
                    simple_class_rules: self.simple_class_rules.insert(rule.key->0),
                    ..self
                }
            } else {
                CosmeticFilterCacheView {
                    complex_class_rules: with_selector(
                        self.complex_class_rules,
                        rule.key->0,
                        rule.selector,
                    ),
                    ..self
                }
            }
        } else if rule.mask.has(CosmeticFilterMask::IS_ID_SELECTOR) && rule.key is Some {
            if rule.selector == seq!['#'] + rule.key->0 {
                CosmeticFilterCacheView {
                    simple_id_rules: self.simple_id_rules.insert(rule.key->0),
                    ..self
                }
            } else {
                CosmeticFilterCacheView {
                    complex_id_rules: with_selector(
                        self.complex_id_rules,
                        rule.key->0,
                        rule.selector,
                    ),
                    ..self
                }
            }
        } else {
            CosmeticFilterCacheView { misc_rules: self.misc_rules.push(rule), ..self }
        }
    }

    /// The index after the rules of `rules` came in, one after the other.
    pub open spec fn add_all(self, rules: Seq<CosmeticFilterView>) -> CosmeticFilterCacheView
        decreases rules.len(),
    {
        if rules.len() == 0 {
            self
        } else {
            self.add_all(rules.drop_last()).add(rules.last())
        }
    }

    /// The selectors that a page with the given classes and ids asks for:
    /// the simple classes, the simple ids, then the complex selectors.
    pub open spec fn class_id_selectors(self, classes: Seq<Seq<char>>, ids: Seq<Seq<char>>) -> Seq<
        Seq<char>,
    > {
        with_mark('.', simple_hits(self.simple_class_rules, self.complex_class_rules, classes))
            + with_mark('#', simple_hits(self.simple_id_rules, self.complex_id_rules, ids))
            + complex_hits(self.simple_class_rules, self.complex_class_rules, classes)
            + complex_hits(self.simple_id_rules, self.complex_id_rules, ids)
    }

    /// The stylesheet for a page with the given classes and ids: none where
    /// no selector is asked for, else one block that hides them all.
    pub open spec fn class_id_stylesheet(self, classes: Seq<Seq<char>>, ids: Seq<Seq<char>>) -> Option<
        Seq<char>,
    > {
        let selectors = self.class_id_selectors(classes, ids);
        if selectors.len() == 0 {
            None
        } else {
            Some(join_commas(selectors) + "{display:none !important;}"@)
        }
    }

    /// The stylesheet of the specific rules that apply to `hostname`, whose
    /// registrable domain is `domain`.
    pub open spec fn hostname_stylesheet(self, hostname: Seq<char>, domain: Seq<char>) -> Seq<char> {
        stylesheet(
            matching(
                self.specific_rules,
                entity_hashes(hostname, domain),
                hostname_hashes(hostname, domain),
            ),
        )
    }

    /// The stylesheet of the miscellaneous rules.
    pub open spec fn base_stylesheet(self) -> Seq<char> {
        stylesheet(self.misc_rules)
    }
}

/// Every rule of the sequence is well formed.
pub open spec fn all_well_formed(rules: Seq<CosmeticFilterView>) -> bool {
    forall|i: int| 0 <= i < rules.len() ==> (#[trigger] rules[i]).well_formed()
}

/// The index of cosmetic rules.
pub struct CosmeticFilterCache {
    simple_class_rules: StringHashSet,
    simple_id_rules: StringHashSet,
    complex_class_rules: StringHashMap<Vec<String>>,
    complex_id_rules: StringHashMap<Vec<String>>,
    specific_rules: Vec<CosmeticFilter>,
    misc_rules: Vec<CosmeticFilter>,
    /// The stylesheet of the miscellaneous rules, while it is up to date.
    base_stylesheet: Option<String>,
}

impl View for CosmeticFilterCache {
    type V = CosmeticFilterCacheView;

    closed spec fn view(&self) -> CosmeticFilterCacheView {
        CosmeticFilterCacheView {
            simple_class_rules: self.simple_class_rules@,
            simple_id_rules: self.simple_id_rules@,
            complex_class_rules: buckets(self.complex_class_rules@),
            complex_id_rules: buckets(self.complex_id_rules@),
            specific_rules: rule_views(self.specific_rules@),
            misc_rules: rule_views(self.misc_rules@),
        }
    }
}

/// Copies a bucket and adds `selector` at its end.
fn extended_bucket(bucket: Option<&Vec<String>>, selector: String) -> (extended: Vec<String>)
    ensures
        texts(extended@) == match bucket {
            Some(b) => texts(b@).push(selector@),
            None => seq![selector@],
        },
{
    let mut extended: Vec<String> = Vec::new();
    if let Some(b) = bucket {
        let mut i: usize = 0;
        while i < b.len()
            invariant
                i <= b@.len(),
                texts(extended@) == texts(b@).take(i as int),
            decreases b@.len() - i,
        {
            let ghost before = extended@;
            let item = b[i].clone();
            extended.push(item);
            proof {
                assert(texts(extended@) =~= texts(before).push(b@[i as int]@));
            }
            i += 1;
        }
        proof {
            assert(texts(b@).take(i as int) == texts(b@));
        }
    }
    extended.push(selector);
    extended
}

/// Adds `selector` to the bucket of `key`.
fn add_to_bucket(map: &mut StringHashMap<Vec<String>>, key: String, selector: String)
    ensures
        buckets(final(map)@) == with_selector(buckets(old(map)@), key@, selector@),
{
    let extended = extended_bucket(map.get(key.as_str()), selector);
    map.insert(key, extended);
}

/// Tests whether `selector` is `mark` followed by `key` and no more.
fn is_bare(selector: &str, mark: char, key: &str) -> (bare: bool)
    ensures
        bare == (selector@ == seq![mark] + key@),
{
    let mut expected = String::new();
    push_char(&mut expected, mark);
    expected.append(key);
    let given = String::from_str(selector);
    given == expected
}

/// Adds to `items` the simple hits among `tokens`, each with `mark` in front.
fn collect_simple(
    items: &mut Vec<String>,
    simple: &StringHashSet,
    complex: &StringHashMap<Vec<String>>,
    tokens: &[String],
    mark: char,
)
    ensures
        texts(final(items)@) == texts(old(items)@) + with_mark(
            mark,
            simple_hits(simple@, buckets(complex@), texts(tokens@)),
        ),
{
    let ghost start = texts(items@);
    let ghost all = texts(tokens@);
    let mut i: usize = 0;
    while i < tokens.len()
        invariant
            i <= tokens@.len(),
            all == texts(tokens@),
            texts(items@) == start + with_mark(
                mark,
                simple_hits(simple@, buckets(complex@), all.take(i as int)),
            ),
        decreases tokens@.len() - i,
    {
        let token = tokens[i].as_str();
        proof {
            assert(all.take(i + 1).drop_last() == all.take(i as int));
            assert(all.take(i + 1).last() == token@);
        }
        if simple.contains(token) && !complex.contains_key(token) {
            let mut item = String::new();
            push_char(&mut item, mark);
            item.append(token);
            let ghost before = items@;
            items.push(item);
            proof {
                assert(texts(items@) =~= texts(before).push(item@));
            }
        }
        i += 1;
    }
    proof {
        assert(all.take(i as int) == all);
    }
}

/// Adds to `items` the complex selectors that `tokens` hit.
fn collect_complex(
    items: &mut Vec<String>,
    simple: &StringHashSet,
    complex: &StringHashMap<Vec<String>>,
    tokens: &[String],
)
    ensures
        texts(final(items)@) == texts(old(items)@) + complex_hits(
            simple@,
            buckets(complex@),
            texts(tokens@),
        ),
{
    let ghost start = texts(items@);
    let ghost all = texts(tokens@);
    let mut i: usize = 0;
    while i < tokens.len()
        invariant
            i <= tokens@.len(),
            all == texts(tokens@),
            texts(items@) == start + complex_hits(simple@, buckets(complex@), all.take(i as int)),
        decreases tokens@.len() - i,
    {
        let token = tokens[i].as_str();
        proof {
            assert(all.take(i + 1).drop_last() == all.take(i as int));
        }
        if simple.contains(token) {
            if let Some(bucket) = complex.get(token) {
                let ghost hits = complex_hits(simple@, buckets(complex@), all.take(i as int));
                let ghost selectors = texts(bucket@);
                let mut k: usize = 0;
                while k < bucket.len()
                    invariant
                        k <= bucket@.len(),
                        selectors == texts(bucket@),
                        texts(items@) == start + hits + selectors.take(k as int),
                    decreases bucket@.len() - k,
                {
                    let ghost before = items@;
                    let item = bucket[k].clone();
                    items.push(item);
                    proof {
                        assert(texts(items@) =~= texts(before).push(bucket@[k as int]@));
                    }
                    k += 1;
                }
            }
        }
        i += 1;
    }
    proof {
        assert(all.take(i as int) == all);
    }
}

/// Writes the items in order, with commas between them.
fn join_with_commas(items: &[String]) -> (joined: String)
    ensures
        joined@ == join_commas(texts(items@)),
{
    let mut joined = String::new();
    let ghost all = texts(items@);
    let mut i: usize = 0;
    while i < items.len()
        invariant
            i <= items@.len(),
            all == texts(items@),
            joined@ == join_commas(all.take(i as int)),
        decreases items@.len() - i,
    {
        proof {
            assert(all.take(i + 1).drop_last() == all.take(i as int));
        }
        if i > 0 {
            push_char(&mut joined, ',');
        }
        joined.append(items[i].as_str());
        i += 1;
    }
    proof {
        assert(all.take(i as int) == all);
    }
    joined
}

impl CosmeticFilterCache {
    /// What holds of every index: its specific rules are well formed, and a
    /// stylesheet that it keeps is that of its miscellaneous rules.
    #[verifier::type_invariant]
    spec fn inv(self) -> bool {
        &&& all_well_formed(rule_views(self.specific_rules@))
        &&& self.base_stylesheet matches Some(css) ==> css@ == stylesheet(
            rule_views(self.misc_rules@),
        )
    }

    /// The stylesheet of the miscellaneous rules that the index keeps ready,
    /// if it keeps one. A stylesheet that is kept is up to date: it is the
    /// base stylesheet of the index.
    pub closed spec fn kept_base_stylesheet(&self) -> Option<Seq<char>> {
        crate::filters::cosmetic::text_view(self.base_stylesheet)
    }

    /// Builds the index of `rules`, taken in order. The index that comes
    /// back keeps its base stylesheet ready.
    pub fn new(rules: Vec<CosmeticFilter>) -> (cache: CosmeticFilterCache)
        requires
            all_well_formed(rule_views(rules@)),
        ensures
            cache@ == CosmeticFilterCacheView::empty().add_all(rule_views(rules@)),
            cache.kept_base_stylesheet() == Some(cache@.base_stylesheet()),
    {
        let mut cache = CosmeticFilterCache {
            simple_class_rules: StringHashSet::new(),
            simple_id_rules: StringHashSet::new(),
            complex_class_rules: StringHashMap::new(),
            complex_id_rules: StringHashMap::new(),
            specific_rules: Vec::new(),
            misc_rules: Vec::new(),
            base_stylesheet: None,
        };
        proof {
            assert(buckets(cache.complex_class_rules@) =~= Map::<Seq<char>, Seq<Seq<char>>>::empty());
            assert(rule_views(cache.specific_rules@) =~= Seq::<CosmeticFilterView>::empty());
        }
        let ghost given = rules@;
        let ghost all = rule_views(given);
        let rules_iter = rules.into_iter();
        for rule in it: rules_iter
            invariant
                it.seq() == given,
                all == rule_views(given),
                all_well_formed(all),
                cache@ == CosmeticFilterCacheView::empty().add_all(all.take(it.index())),
        {
            proof {
                assert(all.take(it.index() + 1).drop_last() == all.take(it.index()));
                assert(all[it.index()] == rule@);
            }
            cache.add_filter(rule);
        }
        proof {
            assert(all.take(all.len() as int) == all);
        }
        cache.regen_base_stylesheet();
        cache
    }

    /// Writes the stylesheet of the miscellaneous rules anew if none is
    /// kept. Afterwards the index keeps its base stylesheet ready. The rules
    /// of the index stay as they are.
    pub fn regen_base_stylesheet(&mut self)
        ensures
            final(self)@ == old(self)@,
            final(self).kept_base_stylesheet() == Some(old(self)@.base_stylesheet()),
    {
        proof {
            use_type_invariant(&*self);
        }
        if self.base_stylesheet.is_none() {
            let css = self.misc_stylesheet();
            self.base_stylesheet = Some(css);
        }
    }

    /// Writes the stylesheet of the miscellaneous rules.
    fn misc_stylesheet(&self) -> (css: String)
        ensures
            css@ == stylesheet(rule_views(self.misc_rules@)),
    {
        let mut borrowed: Vec<&CosmeticFilter> = Vec::new();
        let mut i: usize = 0;
        while i < self.misc_rules.len()
            invariant
                i <= self.misc_rules@.len(),
                borrowed_views(borrowed@) == rule_views(self.misc_rules@).take(i as int),
            decreases self.misc_rules@.len() - i,
        {
            let ghost before = borrowed@;
            let rule = &self.misc_rules[i];
            borrowed.push(rule);
            proof {
                assert(borrowed_views(borrowed@) =~= borrowed_views(before).push(rule@));
            }
            i += 1;
        }
        proof {
            assert(rule_views(self.misc_rules@).take(i as int) == rule_views(self.misc_rules@));
        }
        rules_to_stylesheet(borrowed.as_slice())
    }

    /// Takes one more rule into the index. A miscellaneous rule makes the
    /// index drop the base stylesheet that it keeps; any other rule leaves
    /// it as it is.
    pub fn add_filter(&mut self, rule: CosmeticFilter)
        requires
            rule@.well_formed(),
        ensures
            final(self)@ == old(self)@.add(rule@),
            final(self).kept_base_stylesheet() == if is_misc_rule(rule@) {
                None
            } else {
                old(self).kept_base_stylesheet()
            },
    {
        proof {
            use_type_invariant(&*self);
        }
        if rule.mask.contains(CosmeticFilterMask::SCRIPT_INJECT) || rule.mask.contains(
            CosmeticFilterMask::UNHIDE,
        ) {
            return ;
        }
        // Each container is taken out of the index while it is changed, and
        // put back when it is whole again.
        if rule.has_hostname_constraint() {
            let mut rules: Vec<CosmeticFilter> = Vec::new();
            core::mem::swap(&mut self.specific_rules, &mut rules);
            let ghost before = rules@;
            rules.push(rule);
            proof {
                assert(rule_views(rules@) =~= rule_views(before).push(rule@));
            }
            self.specific_rules = rules;
            return ;
        }
        let is_class = rule.mask.contains(CosmeticFilterMask::IS_CLASS_SELECTOR);
        let is_id = rule.mask.contains(CosmeticFilterMask::IS_ID_SELECTOR);
        if is_class && rule.key.is_some() {
            let CosmeticFilter { selector, key, .. } = rule;
            let key = key.unwrap();
            if is_bare(selector.as_str(), '.', key.as_str()) {
                let mut simple = StringHashSet::new();
                core::mem::swap(&mut self.simple_class_rules, &mut simple);
                simple.insert(key);
                self.simple_class_rules = simple;
            } else {
                let mut complex: StringHashMap<Vec<String>> = StringHashMap::new();
                core::mem::swap(&mut self.complex_class_rules, &mut complex);
                add_to_bucket(&mut complex, key, selector);
                self.complex_class_rules = complex;
            }
            return ;
        }
        if is_id && rule.key.is_some() {
            let CosmeticFilter { selector, key, .. } = rule;
            let key = key.unwrap();
            if is_bare(selector.as_str(), '#', key.as_str()) {
                let mut simple = StringHashSet::new();
                core::mem::swap(&mut self.simple_id_rules, &mut simple);
                simple.insert(key);
                self.simple_id_rules = simple;
            } else {
                let mut complex: StringHashMap<Vec<String>> = StringHashMap::new();
                core::mem::swap(&mut self.complex_id_rules, &mut complex);
                add_to_bucket(&mut complex, key, selector);
                self.complex_id_rules = complex;
            }
            return ;
        }
        self.base_stylesheet = None;
        let mut rules: Vec<CosmeticFilter> = Vec::new();
        core::mem::swap(&mut self.misc_rules, &mut rules);
        let ghost before = rules@;
        rules.push(rule);
        proof {
            assert(rule_views(rules@) =~= rule_views(before).push(rule@));
        }
        self.misc_rules = rules;
    }

    /// The stylesheet of the rules that apply to every page and are not
    /// looked up by class or id: that of the miscellaneous rules, in the
    /// order in which they came in.
    pub fn base_stylesheet(&self) -> (css: String)
        ensures
            css@ == self@.base_stylesheet(),
    {
        proof {
            use_type_invariant(self);
        }
        match &self.base_stylesheet {
            Some(css) => css.clone(),
            None => self.misc_stylesheet(),
        }
    }

    /// The stylesheet for a page on which the given classes and ids occur.
    /// A token counts if it is a simple rule of the index. It then stands
    /// for its complex selectors if it has any, else for itself. The
    /// selectors come as one list: classes, ids, complex ones.
    pub fn class_id_stylesheet(&self, classes: &[String], ids: &[String]) -> (css: Option<String>)
        ensures
            crate::filters::cosmetic::text_view(css) == self@.class_id_stylesheet(
                texts(classes@),
                texts(ids@),
            ),
    {
        let mut items: Vec<String> = Vec::new();
        collect_simple(&mut items, &self.simple_class_rules, &self.complex_class_rules, classes, '.');
        collect_simple(&mut items, &self.simple_id_rules, &self.complex_id_rules, ids, '#');
        collect_complex(&mut items, &self.simple_class_rules, &self.complex_class_rules, classes);
        collect_complex(&mut items, &self.simple_id_rules, &self.complex_id_rules, ids);
        if items.len() == 0 {
            return None;
        }
        let mut css = join_with_commas(items.as_slice());
        css.append("{display:none !important;}");
        Some(css)
    }

    /// The stylesheet of the rules that are scoped to `hostname`: empty
    /// where the public suffix list gives the hostname no registrable
    /// domain, else as `hostname_stylesheet_for_domain` has it for that
    /// domain. The domain that the list gives fits the hostname, unless the
    /// hostname ends in a dot: then it fits what stands before the dot, and
    /// no rule applies.
    pub fn hostname_stylesheet(&self, hostname: &str) -> (css: String)
        ensures
            css@ == match psl_domain(hostname@) {
                Some(domain) => self@.hostname_stylesheet(hostname@, domain),
                None => Seq::<char>::empty(),
            },
            psl_domain(hostname@) matches Some(domain) ==> domain_fits(
                without_trailing_dot(hostname@),
                domain,
            ),
    {
        match registrable_domain(hostname) {
            Some(domain) => self.hostname_stylesheet_for_domain(hostname, domain),
            None => String::new(),
        }
    }

    /// The stylesheet of the specific rules that apply to `hostname`, given
    /// its registrable domain. A rule applies if each of its positive sets
    /// shares a hash with the request and none of its negative sets does.
    pub fn hostname_stylesheet_for_domain(&self, hostname: &str, domain: &str) -> (css: String)
        ensures
            css@ == self@.hostname_stylesheet(hostname@, domain@),
    {
        proof {
            use_type_invariant(self);
        }
        let (request_entities, request_hostnames) = hostname_domain_hashes(hostname, domain);
        let ghost entities = entity_hashes(hostname@, domain@);
        let ghost hostnames = hostname_hashes(hostname@, domain@);
        let ghost all = rule_views(self.specific_rules@);
        let mut selected: Vec<&CosmeticFilter> = Vec::new();
        let mut i: usize = 0;
        while i < self.specific_rules.len()
            invariant
                i <= self.specific_rules@.len(),
                all == rule_views(self.specific_rules@),
                all_well_formed(all),
                holds_sorted(request_entities@, entities),
                holds_sorted(request_hostnames@, hostnames),
                borrowed_views(selected@) == matching(all.take(i as int), entities, hostnames),
            decreases self.specific_rules@.len() - i,
        {
            let rule = &self.specific_rules[i];
            proof {
                assert(all.take(i + 1).drop_last() == all.take(i as int));
                assert(all.take(i + 1).last() == rule@);
                lemma_matches_by_values(
                    rule@,
                    request_entities@,
                    entities,
                    request_hostnames@,
                    hostnames,
                );
            }
            if rule.matches(request_entities.as_slice(), request_hostnames.as_slice()) {
                selected.push(rule);
            }
            i += 1;
        }
        proof {
            assert(all.take(i as int) == all);
        }
        rules_to_stylesheet(selected.as_slice())
    }
}

/// A rule is miscellaneous if it is indexed, has no scope, and is no class
/// or id rule with a key.
pub open spec fn is_misc_rule(rule: CosmeticFilterView) -> bool {
    &&& !rule.mask.has(CosmeticFilterMask::SCRIPT_INJECT)
    &&& !rule.mask.has(CosmeticFilterMask::UNHIDE)
    &&& !rule.has_hostname_constraint()
    &&& !(rule.mask.has(CosmeticFilterMask::IS_CLASS_SELECTOR) && rule.key is Some)
    &&& !(rule.mask.has(CosmeticFilterMask::IS_ID_SELECTOR) && rule.key is Some)
}

/// After any number of miscellaneous rules came in, the base stylesheet is
/// the stylesheet of all miscellaneous rules in the order in which they came
/// in. Reading the index in between changes nothing: no function that reads
/// it can change its view.
pub proof fn lemma_base_stylesheet_after_inserts(
    index: CosmeticFilterCacheView,
    rules: Seq<CosmeticFilterView>,
)
    requires
        forall|i: int| 0 <= i < rules.len() ==> is_misc_rule(#[trigger] rules[i]),
    ensures
        index.add_all(rules).misc_rules == index.misc_rules + rules,
        index.add_all(rules).base_stylesheet() == stylesheet(index.misc_rules + rules),
        index.add_all(rules).specific_rules == index.specific_rules,
    decreases rules.len(),
{
    if rules.len() > 0 {
        lemma_base_stylesheet_after_inserts(index, rules.drop_last());
    }
}

/// The stylesheet of one rule without a style of its own hides its selector.
pub proof fn lemma_stylesheet_of_one_rule(rule: CosmeticFilterView)
    requires
        !rule.is_styled(),
    ensures
        stylesheet(seq![rule]) == rule.selector + "{display:none !important;}\n"@,
{
    let rules = seq![rule];
    assert(rules.drop_last() =~= Seq::<CosmeticFilterView>::empty());
    assert(hidden_count(rules.drop_last()) == 0);
    assert(hide_selectors(rules.drop_last()) =~= Seq::<char>::empty());
    assert(styled_blocks(rules.drop_last()) =~= Seq::<char>::empty());
    assert(hide_selectors(rules) =~= rule.selector);
    assert(styled_blocks(rules) =~= Seq::<char>::empty());
    assert(stylesheet(rules) =~= rule.selector + "{display:none !important;}\n"@);
}

/// A rule whose scope is the single hostname hash `h0` applies to a request
/// exactly if `h0` is the hash of a name that is the request's hostname or
/// a domain above it, and is the registrable domain or a domain below it.
/// An index that holds this rule alone then answers with the rule's
/// stylesheet, else with nothing. The stylesheet of a rule without a style
/// is its selector and the hiding block.
pub proof fn lemma_single_hostname_rule(
    index: CosmeticFilterCacheView,
    rule: CosmeticFilterView,
    h0: u64,
    hostname: Seq<char>,
    domain: Seq<char>,
)
    requires
        rule.hostnames == Some(seq![h0]),
        rule.entities is None,
        rule.not_hostnames is None,
        rule.not_entities is None,
        index.specific_rules == seq![rule],
    ensures
        rule.matches(entity_hashes(hostname, domain), hostname_hashes(hostname, domain)) <==> (
        exists|name: Seq<char>|
            is_name_of(name, hostname) && domain_fits(name, domain) && #[trigger] spec_fast_hash(
                name,
            ) == h0),
        index.hostname_stylesheet(hostname, domain) == if rule.matches(
            entity_hashes(hostname, domain),
            hostname_hashes(hostname, domain),
        ) {
            stylesheet(seq![rule])
        } else {
            Seq::<char>::empty()
        },
        !rule.is_styled() ==> stylesheet(seq![rule]) == rule.selector
            + "{display:none !important;}\n"@,
{
    if !rule.is_styled() {
        lemma_stylesheet_of_one_rule(rule);
    }
    let entities = entity_hashes(hostname, domain);
    let hostnames = hostname_hashes(hostname, domain);
    let n = hostname.len() as int;
    assert(intersects(seq![h0], hostnames) <==> hostnames.contains(h0)) by {
        assert(seq![h0][0] == h0);
        assert(seq![h0].contains(h0));
        if intersects(seq![h0], hostnames) {
            let x = choose|x: u64| seq![h0].contains(x) && hostnames.contains(x);
            assert(x == h0);
        }
    }
    if domain_fits(hostname, domain) {
        lemma_label_hashes_contain(hostname, n, n - domain.len(), h0);
    }
    if hostnames.contains(h0) {
        let p = choose|p: int|
            0 <= p <= n - domain.len() && is_label_start(hostname, p) && #[trigger] spec_fast_hash(
                hostname.subrange(p, n),
            ) == h0;
        let name = hostname.subrange(p, n);
        assert(hostname.subrange(n - name.len(), n) == name);
        assert(name.subrange(name.len() - domain.len(), name.len() as int) =~= domain);
        assert(is_name_of(name, hostname) && domain_fits(name, domain) && spec_fast_hash(name)
            == h0);
    }
    if exists|name: Seq<char>|
        is_name_of(name, hostname) && domain_fits(name, domain) && #[trigger] spec_fast_hash(name)
            == h0 {
        let name = choose|name: Seq<char>|
            is_name_of(name, hostname) && domain_fits(name, domain) && #[trigger] spec_fast_hash(
                name,
            ) == h0;
        let p = n - name.len();
        assert(hostname.subrange(n - domain.len(), n) =~= domain);
        assert(domain_fits(hostname, domain));
        assert(0 <= p <= n - domain.len() && is_label_start(hostname, p) && spec_fast_hash(
            hostname.subrange(p, n),
        ) == h0);
    }
    let rules = seq![rule];
    assert(rules.drop_last() =~= Seq::<CosmeticFilterView>::empty());
    assert(rules.last() == rule);
    assert(matching(rules.drop_last(), entities, hostnames) =~= Seq::<CosmeticFilterView>::empty());
    if rule.matches(entities, hostnames) {
        assert(matching(rules, entities, hostnames) =~= seq![rule]);
    } else {
        assert(matching(rules, entities, hostnames) =~= Seq::<CosmeticFilterView>::empty());
    }
}

/// A rule whose scope is the single entity hash `e0` applies to a request
/// exactly if `e0` is the hash of one of the request's entity names: the
/// hostname or a domain above it, down to the registrable domain, each
/// without the public suffix.
pub proof fn lemma_single_entity_rule(
    rule: CosmeticFilterView,
    e0: u64,
    hostname: Seq<char>,
    domain: Seq<char>,
)
    requires
        rule.entities == Some(seq![e0]),
        rule.hostnames is None,
        rule.not_hostnames is None,
        rule.not_entities is None,
    ensures
        rule.matches(entity_hashes(hostname, domain), hostname_hashes(hostname, domain)) <==> (
        domain_fits(hostname, domain) && public_suffix_len(domain) is Some && exists|p: int|
            0 <= p <= hostname.len() - domain.len() && is_label_start(hostname, p)
                && #[trigger] spec_fast_hash(
                hostname.subrange(p, hostname.len() - public_suffix_len(domain)->0 - 1),
            ) == e0),
{
    let entities = entity_hashes(hostname, domain);
    assert(intersects(seq![e0], entities) <==> entities.contains(e0)) by {
        assert(seq![e0][0] == e0);
    }
    if domain_fits(hostname, domain) && public_suffix_len(domain) is Some {
        lemma_label_hashes_contain(
            hostname,
            hostname.len() - public_suffix_len(domain)->0 - 1,
            hostname.len() - domain.len(),
            e0,
        );
    }
}

} // verus!
