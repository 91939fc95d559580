//! The hostname side of cosmetic rules: the scope that a rule names before
//! its separator, and the hashes under which a request's hostname is looked up.
use vstd::prelude::*;
use vstd::utf8::is_ascii_chars;
use crate::filters::cosmetic::CosmeticFilterError;
use crate::text::{
    all_ascii, chars_of, find_char, has_chars_at, index_of, join_commas, string_of,
};
use crate::utils::{fast_hash, insert_sorted, spec_fast_hash, strictly_sorted};

verus! {

/// The error value of `idna::uts46::to_ascii`. It is opaque: its presence is
/// all that the parser reads.
#[verifier::external_type_specification]
#[verifier::external_body]
pub struct ExIdnaErrors(idna::uts46::Errors);

/// What `idna::uts46::to_ascii` makes of `domain` under the three flags of
/// `idna::uts46::Flags`: its ASCII (Punycode) form, or nothing where the
/// conversion reports an error.
pub uninterp spec fn idna_to_ascii(
    domain: Seq<char>,
    use_std3_ascii_rules: bool,
    transitional_processing: bool,
    verify_dns_length: bool,
) -> Option<Seq<char>>;

/// The longest text, in characters, that is handed to the conversion.
///
/// The Punycode encoder of `idna` counts in 32 bits. Its counter stays in
/// range for every label of at most 3855 characters: in each round it holds
/// at most the length of the label, takes a step of at most 0x10FFFF times
/// that length, and is raised by one at most that length of times. Before
/// a label is encoded, the mapping of UTS-46 puts up to 18 characters in
/// place of one, and normalization up to 4 in place of one. A text of 53
/// characters therefore gives no label of more than 53 * 18 * 4 = 3816
/// characters.
pub const MAX_UNICODE_HOSTNAME_LEN: usize = 53;

/// Calls `idna::uts46::to_ascii` with the given flags. The conversion reads
/// nothing but its arguments, so the contract names its result and claims no
/// more of it. Longer texts are left out, because the encoder's counter can
/// overflow on them.
#[verifier::external_body]
fn to_ascii(
    domain: &str,
    use_std3_ascii_rules: bool,
    transitional_processing: bool,
    verify_dns_length: bool,
) -> (converted: Result<String, idna::uts46::Errors>)
    requires
        domain@.len() <= MAX_UNICODE_HOSTNAME_LEN,
    ensures
        match converted {
            Ok(ascii) => idna_to_ascii(
                domain@,
                use_std3_ascii_rules,
                transitional_processing,
                verify_dns_length,
            ) == Some(ascii@),
            Err(_) => idna_to_ascii(
                domain@,
                use_std3_ascii_rules,
                transitional_processing,
                verify_dns_length,
            ) is None,
        },
{
    idna::uts46::to_ascii(
        domain,
        idna::uts46::Flags { use_std3_ascii_rules, transitional_processing, verify_dns_length },
    )
}

/// The form under which a hostname of a rule's scope is hashed: itself when
/// it is ASCII, else its Punycode form under strict UTS-46 processing (all
/// three flags set). `None` where that conversion fails, and for a hostname
/// outside ASCII of more than `MAX_UNICODE_HOSTNAME_LEN` characters, which
/// is not converted.
pub open spec fn normalized_hostname(part: Seq<char>) -> Option<Seq<char>> {
    if is_ascii_chars(part) {
        Some(part)
    } else if part.len() > MAX_UNICODE_HOSTNAME_LEN {
        None
    } else {
        idna_to_ascii(part, true, true, true)
    }
}

/// Brings one hostname of a rule's scope to the form under which it is hashed.
pub fn normalize_hostname(part: &[char]) -> (normalized: Result<String, CosmeticFilterError>)
    ensures
        match normalized_hostname(part@) {
            Some(h) => normalized matches Ok(s) && s@ == h,
            None => normalized == Err::<String, CosmeticFilterError>(
                CosmeticFilterError::PunycodeError,
            ),
        },
{
    let text = string_of(part, 0, part.len());
    proof {
        assert(part@.subrange(0, part@.len() as int) == part@);
    }
    if all_ascii(part) {
        Ok(text)
    } else if part.len() > MAX_UNICODE_HOSTNAME_LEN {
        Err(CosmeticFilterError::PunycodeError)
    } else {
        match to_ascii(text.as_str(), true, true, true) {
            Ok(ascii) => Ok(ascii),
            Err(_) => Err(CosmeticFilterError::PunycodeError),
        }
    }
}

/// What one hostname of a scope contributes: which of the four sets it goes
/// to, and the hash that goes there.
#[derive(Debug, Clone, Copy, PartialEq, Eq, Structural)]
pub struct ScopeEntry {
    pub negation: bool,
    pub entity: bool,
    pub hash: u64,
}

/// A leading `~` negates the hostname.
pub open spec fn is_negated(hostname: Seq<char>) -> bool {
    hostname.len() > 0 && hostname[0] == '~'
}

/// A trailing `.*` makes the hostname an entity.
pub open spec fn is_entity(hostname: Seq<char>) -> bool {
    hostname.len() >= 2 && hostname[hostname.len() - 2] == '.' && hostname[hostname.len() - 1]
        == '*'
}

/// The hostname without its `~` and its `.*`.
pub open spec fn scope_label(hostname: Seq<char>) -> Seq<char> {
    hostname.subrange(
        if is_negated(hostname) { 1 } else { 0 },
        if is_entity(hostname) { hostname.len() - 2 } else { hostname.len() as int },
    )
}

/// The entry of a normalized hostname.
pub open spec fn scope_entry_of(hostname: Seq<char>) -> ScopeEntry {
    ScopeEntry {
        negation: is_negated(hostname),
        entity: is_entity(hostname),
        hash: spec_fast_hash(scope_label(hostname)),
    }
}

/// Classifies a normalized hostname and hashes its label.
pub fn scope_entry(hostname: &str) -> (entry: ScopeEntry)
    ensures
        entry == scope_entry_of(hostname@),
{
    let chars = chars_of(hostname);
    let n = chars.len();
    let negation = n > 0 && chars[0] == '~';
    let entity = n >= 2 && chars[n - 2] == '.' && chars[n - 1] == '*';
    let start: usize = if negation { 1 } else { 0 };
    let end: usize = if entity { n - 2 } else { n };
    let label = string_of(chars.as_slice(), start, end);
    ScopeEntry { negation, entity, hash: fast_hash(label.as_str()) }
}

/// The comma-separated parts of `s`. There is always at least one; a part
/// may be empty.
pub open spec fn split_at_commas(s: Seq<char>) -> Seq<Seq<char>>
    decreases s.len(),
{
    if s.len() == 0 {
        seq![Seq::<char>::empty()]
    } else {
        let init = split_at_commas(s.drop_last());
        if s.last() == ',' {
            init.push(Seq::<char>::empty())
        } else {
            init.update(init.len() - 1, init.last().push(s.last()))
        }
    }
}

/// Splitting loses nothing: no part holds a comma, and the parts with
/// commas between them make the text again.
pub proof fn lemma_split_at_commas(s: Seq<char>)
    ensures
        split_at_commas(s).len() > 0,
        forall|i: int, j: int|
            0 <= i < split_at_commas(s).len() && 0 <= j < split_at_commas(s)[i].len()
                ==> #[trigger] split_at_commas(s)[i][j] != ',',
        join_commas(split_at_commas(s)) == s,
    decreases s.len(),
{
    let parts = split_at_commas(s);
    if s.len() > 0 {
        let init = s.drop_last();
        let before = split_at_commas(init);
        lemma_split_at_commas(init);
        let c = s.last();
        if c == ',' {
            assert(parts.drop_last() == before);
            assert(join_commas(parts) =~= init.push(c));
            assert(init.push(c) == s);
        } else if parts.len() == 1 {
            assert(join_commas(parts) =~= init.push(c));
        } else {
            assert(parts.drop_last() =~= before.drop_last());
        }
    }
}

/// Some part of the scope has no normalized form.
pub open spec fn scope_error(parts: Seq<Seq<char>>) -> bool {
    exists|k: int| 0 <= k < parts.len() && normalized_hostname(#[trigger] parts[k]) is None
}

/// Some part of the scope holds a character outside ASCII.
pub open spec fn scope_is_unicode(parts: Seq<Seq<char>>) -> bool {
    exists|k: int| 0 <= k < parts.len() && !is_ascii_chars(#[trigger] parts[k])
}

/// The hashes that the parts with the given negation and entity marks
/// contribute, in the order of the parts.
pub open spec fn scope_hashes(parts: Seq<Seq<char>>, negation: bool, entity: bool) -> Seq<u64>
    decreases parts.len(),
{
    if parts.len() == 0 {
        Seq::<u64>::empty()
    } else {
        let init = scope_hashes(parts.drop_last(), negation, entity);
        match normalized_hostname(parts.last()) {
            Some(h) => {
                let entry = scope_entry_of(h);
                if entry.negation == negation && entry.entity == entity {
                    init.push(entry.hash)
                } else {
                    init
                }
            },
            None => init,
        }
    }
}

/// `set` is strictly ascending and holds exactly the values of `values`.
pub open spec fn holds_sorted(set: Seq<u64>, values: Seq<u64>) -> bool {
    strictly_sorted(set) && set.to_set() == values.to_set()
}

/// The four sorted hash sets of a scope, and whether the scope holds a
/// character outside ASCII.
pub struct ScopeSets {
    pub entities: Vec<u64>,
    pub not_entities: Vec<u64>,
    pub hostnames: Vec<u64>,
    pub not_hostnames: Vec<u64>,
    pub is_unicode: bool,
}

impl ScopeSets {
    /// `self` is what the parts `parts` come to.
    pub open spec fn is_scope_of(self, parts: Seq<Seq<char>>) -> bool {
        &&& holds_sorted(self.entities@, scope_hashes(parts, false, true))
        &&& holds_sorted(self.not_entities@, scope_hashes(parts, true, true))
        &&& holds_sorted(self.hostnames@, scope_hashes(parts, false, false))
        &&& holds_sorted(self.not_hostnames@, scope_hashes(parts, true, false))
        &&& self.is_unicode == scope_is_unicode(parts)
    }
}

/// Adding a value to both sides keeps `holds_sorted`.
proof fn lemma_holds_sorted_push(before: Seq<u64>, after: Seq<u64>, values: Seq<u64>, x: u64)
    requires
        holds_sorted(before, values),
        strictly_sorted(after),
        after.to_set() == before.to_set().insert(x),
    ensures
        holds_sorted(after, values.push(x)),
{
    assert forall|y: u64| values.push(x).to_set().contains(y) == values.to_set().insert(
        x,
    ).contains(y) by {
        if values.contains(y) {
            let t = choose|t: int| 0 <= t < values.len() && values[t] == y;
            assert(values.push(x)[t] == y);
        }
        if y == x {
            assert(values.push(x)[values.len() as int] == x);
        }
    }
    assert(values.push(x).to_set() =~= values.to_set().insert(x));
}

/// The parts that are complete after `i` characters stay as they are when
/// more characters follow.
proof fn lemma_split_prefix(s: Seq<char>, i: int)
    requires
        0 <= i <= s.len(),
    ensures
        0 < split_at_commas(s.take(i)).len() <= split_at_commas(s).len(),
        forall|k: int|
            0 <= k < split_at_commas(s.take(i)).len() - 1 ==> split_at_commas(s.take(i))[k]
                == split_at_commas(s)[k],
    decreases s.len() - i,
{
    lemma_split_nonempty(s.take(i));
    if i == s.len() {
        assert(s.take(i) == s);
    } else {
        lemma_split_prefix(s, i + 1);
        assert(s.take(i + 1).drop_last() == s.take(i));
    }
}

/// A text always has at least one part.
proof fn lemma_split_nonempty(s: Seq<char>)
    ensures
        split_at_commas(s).len() > 0,
    decreases s.len(),
{
    if s.len() > 0 {
        lemma_split_nonempty(s.drop_last());
    }
}

/// Takes one more part into the sets.
fn add_part(sets: &mut ScopeSets, part: &[char], Ghost(done): Ghost<Seq<Seq<char>>>) -> (added:
    bool)
    requires
        old(sets).is_scope_of(done),
        !scope_error(done),
    ensures
        added == normalized_hostname(part@) is Some,
        added ==> final(sets).is_scope_of(done.push(part@)) && !scope_error(done.push(part@)),
{
    let ghost whole = done.push(part@);
    let ascii = all_ascii(part);
    match normalize_hostname(part) {
        Err(_) => false,
        Ok(hostname) => {
            let entry = scope_entry(hostname.as_str());
            let ghost before = *sets;
            if entry.negation && entry.entity {
                insert_sorted(&mut sets.not_entities, entry.hash);
            } else if entry.negation {
                insert_sorted(&mut sets.not_hostnames, entry.hash);
            } else if entry.entity {
                insert_sorted(&mut sets.entities, entry.hash);
            } else {
                insert_sorted(&mut sets.hostnames, entry.hash);
            }
            if !ascii {
                sets.is_unicode = true;
            }
            proof {
                assert(whole.drop_last() == done);
                if entry.negation && entry.entity {
                    lemma_holds_sorted_push(
                        before.not_entities@,
                        sets.not_entities@,
                        scope_hashes(done, true, true),
                        entry.hash,
                    );
                } else if entry.negation {
                    lemma_holds_sorted_push(
                        before.not_hostnames@,
                        sets.not_hostnames@,
                        scope_hashes(done, true, false),
                        entry.hash,
                    );
                } else if entry.entity {
                    lemma_holds_sorted_push(
                        before.entities@,
                        sets.entities@,
                        scope_hashes(done, false, true),
                        entry.hash,
                    );
                } else {
                    lemma_holds_sorted_push(
                        before.hostnames@,
                        sets.hostnames@,
                        scope_hashes(done, false, false),
                        entry.hash,
                    );
                }
            }
            true
        },
    }
}

/// Reads the scope of a rule: the text before the separator, hostnames
/// separated by commas.
pub fn parse_scope(scope: &[char]) -> (sets: Result<ScopeSets, CosmeticFilterError>)
    ensures
        scope_error(split_at_commas(scope@)) ==> sets == Err::<ScopeSets, CosmeticFilterError>(
            CosmeticFilterError::PunycodeError,
        ),
        !scope_error(split_at_commas(scope@)) ==> sets is Ok && sets->Ok_0.is_scope_of(
            split_at_commas(scope@),
        ),
{
    let mut sets = ScopeSets {
        entities: Vec::new(),
        not_entities: Vec::new(),
        hostnames: Vec::new(),
        not_hostnames: Vec::new(),
        is_unicode: false,
    };
    let n = scope.len();
    let ghost mut done: Seq<Seq<char>> = Seq::empty();
    let mut part_start: usize = 0;
    let mut i: usize = 0;
    proof {
        assert(scope@.take(0) =~= Seq::<char>::empty());
    }
    while i < n
        invariant
            part_start <= i <= n == scope@.len(),
            split_at_commas(scope@.take(i as int)) == done.push(
                scope@.subrange(part_start as int, i as int),
            ),
            !scope_error(done),
            sets.is_scope_of(done),
        decreases n - i,
    {
        proof {
            assert(scope@.take(i + 1).drop_last() == scope@.take(i as int));
        }
        if scope[i] == ',' {
            let part = vstd::slice::slice_subrange(scope, part_start, i);
            if !add_part(&mut sets, part, Ghost(done)) {
                proof {
                    lemma_split_prefix(scope@, i + 1);
                    assert(normalized_hostname(split_at_commas(scope@)[done.len() as int]) is None);
                }
                return Err(CosmeticFilterError::PunycodeError);
            }
            proof {
                done = done.push(part@);
                assert(scope@.subrange(i + 1, i + 1) =~= Seq::<char>::empty());
            }
            part_start = i + 1;
        } else {
            proof {
                assert(scope@.subrange(part_start as int, i as int).push(scope@[i as int])
                    =~= scope@.subrange(part_start as int, i + 1));
            }
        }
        i += 1;
    }
    let part = vstd::slice::slice_subrange(scope, part_start, n);
    proof {
        assert(scope@.take(n as int) == scope@);
    }
    if !add_part(&mut sets, part, Ghost(done)) {
        proof {
            assert(normalized_hostname(split_at_commas(scope@)[done.len() as int]) is None);
        }
        return Err(CosmeticFilterError::PunycodeError);
    }
    Ok(sets)
}

/// A label of `hostname` begins at `p`: at the start, or behind a dot.
pub open spec fn is_label_start(hostname: Seq<char>, p: int) -> bool {
    p == 0 || (0 < p <= hostname.len() && hostname[p - 1] == '.')
}

/// The hashes of `hostname[p..end]` for each label start `p` from 0 up to
/// `upto`, in the order of `p`.
pub open spec fn label_hashes(hostname: Seq<char>, end: int, upto: int) -> Seq<u64>
    decreases upto + 1,
{
    if upto < 0 {
        Seq::<u64>::empty()
    } else {
        let init = label_hashes(hostname, end, upto - 1);
        if is_label_start(hostname, upto) {
            init.push(spec_fast_hash(hostname.subrange(upto, end)))
        } else {
            init
        }
    }
}

/// A hash is among the label hashes exactly if it is the hash of a name
/// that begins at a label start.
pub proof fn lemma_label_hashes_contain(hostname: Seq<char>, end: int, upto: int, hash: u64)
    ensures
        label_hashes(hostname, end, upto).contains(hash) <==> exists|p: int|
            0 <= p <= upto && is_label_start(hostname, p) && #[trigger] spec_fast_hash(
                hostname.subrange(p, end),
            ) == hash,
    decreases upto + 1,
{
    if upto >= 0 {
        lemma_label_hashes_contain(hostname, end, upto - 1, hash);
        let init = label_hashes(hostname, end, upto - 1);
        let own = spec_fast_hash(hostname.subrange(upto, end));
        if is_label_start(hostname, upto) {
            assert(init.push(own).contains(hash) <==> init.contains(hash) || own == hash) by {
                if init.contains(hash) {
                    let t = choose|t: int| 0 <= t < init.len() && init[t] == hash;
                    assert(init.push(own)[t] == hash);
                }
                if own == hash {
                    assert(init.push(own)[init.len() as int] == hash);
                }
            }
        }
    }
}

/// `name` is `hostname` or a domain above it: the hostname ends with
/// `name`, and `name` begins at a label of the hostname.
pub open spec fn is_name_of(name: Seq<char>, hostname: Seq<char>) -> bool {
    &&& name.len() <= hostname.len()
    &&& hostname.subrange(hostname.len() - name.len(), hostname.len() as int) == name
    &&& is_label_start(hostname, hostname.len() - name.len())
}

/// Whether `domain` can be the registrable domain of `hostname`: it is not
/// empty, and it is the hostname or a domain above it.
pub open spec fn domain_fits(hostname: Seq<char>, domain: Seq<char>) -> bool {
    domain.len() > 0 && is_name_of(domain, hostname)
}

/// Tests whether `domain` can be the registrable domain of `hostname`.
pub fn is_domain_of(hostname: &[char], domain: &[char]) -> (fits: bool)
    ensures
        fits == domain_fits(hostname@, domain@),
{
    if domain.len() == 0 || domain.len() > hostname.len() {
        return false;
    }
    let at = hostname.len() - domain.len();
    if at > 0 && hostname[at - 1] != '.' {
        return false;
    }
    has_chars_at(hostname, at, domain)
}

/// The hashes under which a request's hostname is looked up: one for each
/// suffix of the hostname that begins at a label and is no shorter than the
/// registrable domain. For `a.b.example.com` with domain `example.com`:
/// `a.b.example.com`, `b.example.com`, `example.com`. There is none where
/// the domain does not fit the hostname.
pub open spec fn hostname_hashes(hostname: Seq<char>, domain: Seq<char>) -> Seq<u64> {
    if domain_fits(hostname, domain) {
        label_hashes(hostname, hostname.len() as int, hostname.len() - domain.len())
    } else {
        Seq::<u64>::empty()
    }
}

/// Length of the public suffix of a registrable domain: what follows its
/// first dot. `None` where it has no dot.
pub open spec fn public_suffix_len(domain: Seq<char>) -> Option<int> {
    let dot = find_char(domain, '.', 0);
    if dot < domain.len() {
        Some(domain.len() - dot - 1)
    } else {
        None
    }
}

/// The hashes under which a request's entities are looked up: as
/// `hostname_hashes`, with the public suffix and its dot cut off each name.
/// For `a.b.example.com` with domain `example.com`: `a.b.example`,
/// `b.example`, `example`.
pub open spec fn entity_hashes(hostname: Seq<char>, domain: Seq<char>) -> Seq<u64> {
    match public_suffix_len(domain) {
        Some(suffix) => if domain_fits(hostname, domain) {
            label_hashes(
                hostname,
                hostname.len() - suffix - 1,
                hostname.len() - domain.len(),
            )
        } else {
            Seq::<u64>::empty()
        },
        None => Seq::<u64>::empty(),
    }
}

/// Hashes the names `hostname[p..end]` for the label starts `p` up to `upto`.
fn hash_labels(hostname: &[char], end: usize, upto: usize) -> (hashes: Vec<u64>)
    requires
        upto <= end <= hostname@.len(),
    ensures
        holds_sorted(hashes@, label_hashes(hostname@, end as int, upto as int)),
{
    let mut hashes: Vec<u64> = Vec::new();
    let mut p: usize = 0;
    loop
        invariant_except_break
            p <= upto <= end <= hostname@.len(),
            holds_sorted(hashes@, label_hashes(hostname@, end as int, p - 1)),
        ensures
            holds_sorted(hashes@, label_hashes(hostname@, end as int, upto as int)),
        decreases upto - p,
    {
        if p == 0 || hostname[p - 1] == '.' {
            let name = string_of(hostname, p, end);
            let ghost before = hashes@;
            insert_sorted(&mut hashes, fast_hash(name.as_str()));
            proof {
                lemma_holds_sorted_push(
                    before,
                    hashes@,
                    label_hashes(hostname@, end as int, p - 1),
                    spec_fast_hash(name@),
                );
            }
        }
        if p == upto {
            break ;
        }
        p += 1;
    }
    hashes
}

/// Computes the sorted hashes of `hostname` and of the domains above it,
/// down to its registrable domain `domain`.
pub fn get_hostname_hashes_from_labels(hostname: &str, domain: &str) -> (hashes: Vec<
    crate::utils::Hash,
>)
    ensures
        holds_sorted(hashes@, hostname_hashes(hostname@, domain@)),
{
    let host = chars_of(hostname);
    let dom = chars_of(domain);
    if !is_domain_of(host.as_slice(), dom.as_slice()) {
        return Vec::new();
    }
    hash_labels(host.as_slice(), host.len(), host.len() - dom.len())
}

/// Computes the sorted hashes of the entities of `hostname`: its names down
/// to the registrable domain `domain`, each without the public suffix.
pub fn get_entity_hashes_from_labels(hostname: &str, domain: &str) -> (hashes: Vec<
    crate::utils::Hash,
>)
    ensures
        holds_sorted(hashes@, entity_hashes(hostname@, domain@)),
{
    let host = chars_of(hostname);
    let dom = chars_of(domain);
    let dot = index_of(dom.as_slice(), '.', 0);
    if dot >= dom.len() || !is_domain_of(host.as_slice(), dom.as_slice()) {
        return Vec::new();
    }
    let suffix = dom.len() - dot - 1;
    hash_labels(host.as_slice(), host.len() - suffix - 1, host.len() - dom.len())
}

} // verus!
