//! The rule set and the longest-prefix resolution of request URLs.

use vstd::prelude::*;

use crate::text::{is_segment_prefix, lemma_lex_less_asymmetric, lemma_lex_less_total,
    lemma_lex_less_transitive, lex_less, lex_less_than, segment_prefix_of};
use crate::url::{parse_url, parts_view, path_after, path_after_segments, segment_count,
    segment_count_of, url_of, UrlParts, UrlView};

verus! {

/// Rule pairs as character sequences.
pub open spec fn entries_view(v: Seq<(String, String)>) -> Seq<(Seq<char>, Seq<char>)> {
    v.map_values(|p: (String, String)| (p.0@, p.1@))
}

/// The mapping that inserting the pairs in order leaves: a later pair with a
/// key seen before replaces the earlier one.
pub open spec fn rule_map(entries: Seq<(Seq<char>, Seq<char>)>) -> Map<Seq<char>, Seq<char>>
    decreases entries.len(),
{
    if entries.len() == 0 {
        Map::empty()
    } else {
        rule_map(entries.drop_last()).insert(entries.last().0, entries.last().1)
    }
}

/// No key occurs twice.
pub open spec fn keys_distinct(entries: Seq<(Seq<char>, Seq<char>)>) -> bool {
    forall|i: int, j: int|
        0 <= i < j < entries.len() ==> #[trigger] entries[i].0 != #[trigger] entries[j].0
}

/// A parsed rule key applies to a parsed request: same host, and the key's
/// path covers whole leading segments of the request's path.
pub open spec fn key_admits(key: UrlView, req: UrlView) -> bool {
    &&& key.host is Some
    &&& key.host == req.host
    &&& is_segment_prefix(key.path, req.path)
}

/// A rule key, as the parser left it, applies to the parsed request; a key
/// the parser rejected applies to nothing.
pub open spec fn parsed_applies(key: Option<UrlView>, req: UrlView) -> bool {
    match key {
        Some(k) => key_admits(k, req),
        None => false,
    }
}

/// The length of the path of a parsed rule key.
pub open spec fn parsed_path_len(key: Option<UrlView>) -> nat {
    match key {
        Some(k) => k.path.len(),
        None => 0,
    }
}

/// Rule key `a`, parsed as `pa`, is preferred to rule key `b`, parsed as
/// `pb`: its path is longer, or as long and `a` comes first in lexicographic
/// order.
pub open spec fn ranks_above(pa: Option<UrlView>, a: Seq<char>, pb: Option<UrlView>, b: Seq<char>) -> bool {
    parsed_path_len(pa) > parsed_path_len(pb) || (parsed_path_len(pa) == parsed_path_len(pb) && lex_less(a, b))
}

/// The rule key `key` applies to the parsed request.
pub open spec fn rule_applies(key: Seq<char>, req: UrlView) -> bool {
    parsed_applies(url_of(key), req)
}

/// The length of the path of a rule key.
pub open spec fn key_path_len(key: Seq<char>) -> nat {
    parsed_path_len(url_of(key))
}

/// Rule key `a` is preferred to rule key `b`.
pub open spec fn outranks(a: Seq<char>, b: Seq<char>) -> bool {
    ranks_above(url_of(a), a, url_of(b), b)
}

/// `key` is the preferred one among the rules that apply to `req`.
pub open spec fn is_selected(rules: Map<Seq<char>, Seq<char>>, req: UrlView, key: Seq<char>) -> bool {
    &&& rules.contains_key(key)
    &&& rule_applies(key, req)
    &&& forall|other: Seq<char>|
        #![trigger rules.contains_key(other)]
        rules.contains_key(other) && rule_applies(other, req) && other != key ==> outranks(key, other)
}

/// The key of the rule that rewrites `req`, if any rule applies.
pub open spec fn selected_rule(rules: Map<Seq<char>, Seq<char>>, req: UrlView) -> Option<Seq<char>> {
    if exists|k: Seq<char>| is_selected(rules, req, k) {
        Some(choose|k: Seq<char>| is_selected(rules, req, k))
    } else {
        None
    }
}

/// The physical prefix `phys` followed by what the request path has past
/// `phys`'s own segment count (after a `/`, if anything is left) and by the
/// request's query (after a `?`, if it is not empty).
pub open spec fn rewritten(phys: UrlView, req: UrlView) -> Seq<char> {
    let rest = path_after(req.path, segment_count(phys.path));
    let with_path = if rest.len() > 0 {
        phys.serialization + seq!['/'] + rest
    } else {
        phys.serialization
    };
    let query = match req.query {
        Some(q) => q,
        None => Seq::empty(),
    };
    if query.len() > 0 {
        with_path + seq!['?'] + query
    } else {
        with_path
    }
}

/// The URL that a request for `url` is sent to under `rules`.
pub open spec fn resolved_url(rules: Map<Seq<char>, Seq<char>>, url: Seq<char>) -> Seq<char> {
    match url_of(url) {
        None => url,
        Some(req) => match selected_rule(rules, req) {
            None => url,
            Some(key) => match url_of(rules[key]) {
                None => url,
                Some(phys) => rewritten(phys, req),
            },
        },
    }
}

/// Preference between parsed keys is transitive.
pub proof fn lemma_ranks_above_transitive(
    pa: Option<UrlView>,
    a: Seq<char>,
    pb: Option<UrlView>,
    b: Seq<char>,
    pc: Option<UrlView>,
    c: Seq<char>,
)
    requires
        ranks_above(pa, a, pb, b),
        ranks_above(pb, b, pc, c),
    ensures
        ranks_above(pa, a, pc, c),
{
    if parsed_path_len(pa) == parsed_path_len(pb) && parsed_path_len(pb) == parsed_path_len(pc) {
        lemma_lex_less_transitive(a, b, c);
    }
}

/// Of two different keys, one is preferred.
pub proof fn lemma_ranks_above_total(pa: Option<UrlView>, a: Seq<char>, pb: Option<UrlView>, b: Seq<char>)
    requires
        a != b,
    ensures
        ranks_above(pa, a, pb, b) || ranks_above(pb, b, pa, a),
{
    lemma_lex_less_total(a, b);
}

/// Preference between rule keys is transitive.
pub proof fn lemma_outranks_transitive(a: Seq<char>, b: Seq<char>, c: Seq<char>)
    requires
        outranks(a, b),
        outranks(b, c),
    ensures
        outranks(a, c),
{
    lemma_ranks_above_transitive(url_of(a), a, url_of(b), b, url_of(c), c);
}

/// No key is preferred to itself, and of two keys at most one is preferred.
pub proof fn lemma_outranks_asymmetric(a: Seq<char>, b: Seq<char>)
    ensures
        !(outranks(a, b) && outranks(b, a)),
        !outranks(a, a),
{
    lemma_lex_less_asymmetric(a, b);
}

/// Of two different rule keys, one is preferred.
pub proof fn lemma_outranks_total(a: Seq<char>, b: Seq<char>)
    requires
        a != b,
    ensures
        outranks(a, b) || outranks(b, a),
{
    lemma_ranks_above_total(url_of(a), a, url_of(b), b);
}

/// At most one key is selected.
pub proof fn lemma_selected_unique(rules: Map<Seq<char>, Seq<char>>, req: UrlView, a: Seq<char>, b: Seq<char>)
    requires
        is_selected(rules, req, a),
        is_selected(rules, req, b),
    ensures
        a == b,
{
    if a != b {
        assert(rules.contains_key(b));
        assert(rules.contains_key(a));
        lemma_outranks_asymmetric(a, b);
    }
}

/// A finite non-empty set of keys has one that outranks all the others.
pub proof fn lemma_top_key_exists(cands: Set<Seq<char>>)
    requires
        cands.finite(),
        cands.len() > 0,
    ensures
        exists|k: Seq<char>|
            cands.contains(k) && forall|o: Seq<char>|
                #![trigger cands.contains(o)]
                cands.contains(o) && o != k ==> outranks(k, o),
    decreases cands.len(),
{
    let x = cands.choose();
    let rest = cands.remove(x);
    if rest.len() == 0 {
        assert forall|o: Seq<char>| #![trigger cands.contains(o)] cands.contains(o) && o != x implies outranks(x, o) by {
            assert(rest.contains(o));
        }
    } else {
        lemma_top_key_exists(rest);
        let b = choose|k: Seq<char>|
            rest.contains(k) && forall|o: Seq<char>|
                #![trigger rest.contains(o)]
                rest.contains(o) && o != k ==> outranks(k, o);
        if outranks(x, b) {
            assert forall|o: Seq<char>| #![trigger cands.contains(o)] cands.contains(o) && o != x implies outranks(x, o) by {
                assert(rest.contains(o));
                if o != b {
                    lemma_outranks_transitive(x, b, o);
                }
            }
        } else {
            lemma_outranks_total(b, x);
            assert forall|o: Seq<char>| #![trigger cands.contains(o)] cands.contains(o) && o != b implies outranks(b, o) by {
                if o != x {
                    assert(rest.contains(o));
                }
            }
        }
    }
}

/// Where at least one rule applies to a request, exactly one is selected.
pub proof fn lemma_some_rule_selected(rules: Map<Seq<char>, Seq<char>>, req: UrlView, k: Seq<char>)
    requires
        rules.dom().finite(),
        rules.contains_key(k),
        rule_applies(k, req),
    ensures
        selected_rule(rules, req) is Some,
        is_selected(rules, req, selected_rule(rules, req)->0),
{
    let cands = rules.dom().filter(|key: Seq<char>| rule_applies(key, req));
    rules.dom().lemma_len_filter(|key: Seq<char>| rule_applies(key, req));
    assert(cands.contains(k));
    lemma_top_key_exists(cands);
    let top = choose|t: Seq<char>|
        cands.contains(t) && forall|o: Seq<char>|
            #![trigger cands.contains(o)]
            cands.contains(o) && o != t ==> outranks(t, o);
    assert forall|other: Seq<char>|
        #![trigger rules.contains_key(other)]
        rules.contains_key(other) && rule_applies(other, req) && other != top implies outranks(top, other) by {
        assert(cands.contains(other));
    }
    assert(is_selected(rules, req, top));
}

/// A request URL that parses, and to which no rule applies, is sent as it is.
pub proof fn lemma_no_rule_keeps_url(rules: Map<Seq<char>, Seq<char>>, url: Seq<char>)
    requires
        url_of(url) is Some,
        forall|k: Seq<char>| #[trigger] rules.contains_key(k) ==> !rule_applies(k, url_of(url)->0),
    ensures
        resolved_url(rules, url) == url,
{
    let req = url_of(url)->0;
    assert forall|k: Seq<char>| !is_selected(rules, req, k) by {
        if is_selected(rules, req, k) {
            assert(rules.contains_key(k));
        }
    }
}

/// Where several rules apply to a request, one whose key has a path at least
/// as long as any of theirs rewrites it.
pub proof fn lemma_longest_key_wins(rules: Map<Seq<char>, Seq<char>>, url: Seq<char>, k: Seq<char>)
    requires
        rules.dom().finite(),
        url_of(url) is Some,
        rules.contains_key(k),
        rule_applies(k, url_of(url)->0),
    ensures
        ({
            let req = url_of(url)->0;
            let sel = selected_rule(rules, req)->0;
            &&& selected_rule(rules, req) is Some
            &&& rules.contains_key(sel)
            &&& rule_applies(sel, req)
            &&& key_path_len(sel) >= key_path_len(k)
            &&& resolved_url(rules, url) == match url_of(rules[sel]) {
                Some(phys) => rewritten(phys, req),
                None => url,
            }
        }),
{
    let req = url_of(url)->0;
    lemma_some_rule_selected(rules, req, k);
    let sel = selected_rule(rules, req)->0;
    if sel != k {
        assert(rules.contains_key(k));
    }
}

/// A request URL that the parser rejects is sent as it is.
pub proof fn lemma_unparsable_request_kept(rules: Map<Seq<char>, Seq<char>>, url: Seq<char>)
    requires
        url_of(url) is None,
    ensures
        resolved_url(rules, url) == url,
{
}

/// A rule whose key the parser rejects applies to no request.
pub proof fn lemma_unparsable_key_applies_nowhere(key: Seq<char>, req: UrlView)
    requires
        url_of(key) is None,
    ensures
        !rule_applies(key, req),
{
}

/// Where the selected rule's target does not parse, the request URL is sent
/// as it is.
pub proof fn lemma_unparsable_target_keeps_url(rules: Map<Seq<char>, Seq<char>>, url: Seq<char>)
    requires
        url_of(url) is Some,
        selected_rule(rules, url_of(url)->0) is Some,
        url_of(rules[selected_rule(rules, url_of(url)->0)->0]) is None,
    ensures
        resolved_url(rules, url) == url,
{
}

/// The keys of `rule_map(entries)` are the keys of the pairs, and with
/// distinct keys each pair's value is what the map holds.
pub proof fn lemma_rule_map_entries(entries: Seq<(Seq<char>, Seq<char>)>)
    ensures
        rule_map(entries).dom().finite(),
        forall|k: Seq<char>|
            rule_map(entries).contains_key(k) <==> exists|i: int| 0 <= i < entries.len() && entries[i].0 == k,
        keys_distinct(entries) ==> forall|i: int|
            0 <= i < entries.len() ==> #[trigger] rule_map(entries)[entries[i].0] == entries[i].1,
    decreases entries.len(),
{
    if entries.len() > 0 {
        let init = entries.drop_last();
        lemma_rule_map_entries(init);
        let last = entries.last();
        assert forall|k: Seq<char>|
            rule_map(entries).contains_key(k) <==> exists|i: int| 0 <= i < entries.len() && entries[i].0 == k by {
            if rule_map(init).contains_key(k) {
                let i = choose|i: int| 0 <= i < init.len() && init[i].0 == k;
                assert(entries[i].0 == k);
            }
            if exists|i: int| 0 <= i < entries.len() && entries[i].0 == k {
                let i = choose|i: int| 0 <= i < entries.len() && entries[i].0 == k;
                if i < init.len() {
                    assert(init[i].0 == k);
                }
            }
        }
        if keys_distinct(entries) {
            assert forall|i: int| 0 <= i < entries.len() implies #[trigger] rule_map(entries)[entries[i].0]
                == entries[i].1 by {
                if i < entries.len() - 1 {
                    assert(init[i] == entries[i]);
                    assert(entries[i].0 != entries[entries.len() - 1].0);
                }
            }
        }
    }
}

/// Replacing the value of a key that is there already.
pub proof fn lemma_rule_map_update(e: Seq<(Seq<char>, Seq<char>)>, j: int, k: Seq<char>, v: Seq<char>)
    requires
        keys_distinct(e),
        0 <= j < e.len(),
        e[j].0 == k,
    ensures
        keys_distinct(e.update(j, (k, v))),
        rule_map(e.update(j, (k, v))) == rule_map(e).insert(k, v),
{
    let e2 = e.update(j, (k, v));
    assert forall|a: int, b: int| 0 <= a < b < e2.len() implies #[trigger] e2[a].0 != #[trigger] e2[b].0 by {
        assert(e[a].0 != e[b].0);
    }
    lemma_rule_map_entries(e);
    lemma_rule_map_entries(e2);
    let m1 = rule_map(e2);
    let m2 = rule_map(e).insert(k, v);
    assert forall|x: Seq<char>| m1.contains_key(x) <==> m2.contains_key(x) by {
        if m1.contains_key(x) {
            let i = choose|i: int| 0 <= i < e2.len() && e2[i].0 == x;
            assert(e[i].0 == x);
        }
        if rule_map(e).contains_key(x) {
            let i = choose|i: int| 0 <= i < e.len() && e[i].0 == x;
            assert(e2[i].0 == x);
        }
        if x == k {
            assert(e2[j].0 == x);
        }
    }
    assert forall|x: Seq<char>| #[trigger] m1.contains_key(x) implies m1[x] == m2[x] by {
        let i = choose|i: int| 0 <= i < e2.len() && e2[i].0 == x;
        assert(m1[e2[i].0] == e2[i].1);
        if i != j {
            assert(e[i] == e2[i]);
            assert(rule_map(e)[e[i].0] == e[i].1);
        }
    }
    assert(m1 =~= m2);
}

/// Adding a pair whose key is new.
pub proof fn lemma_rule_map_push(e: Seq<(Seq<char>, Seq<char>)>, k: Seq<char>, v: Seq<char>)
    requires
        keys_distinct(e),
        forall|j: int| 0 <= j < e.len() ==> #[trigger] e[j].0 != k,
    ensures
        keys_distinct(e.push((k, v))),
        rule_map(e.push((k, v))) == rule_map(e).insert(k, v),
{
    let e2 = e.push((k, v));
    assert forall|a: int, b: int| 0 <= a < b < e2.len() implies #[trigger] e2[a].0 != #[trigger] e2[b].0 by {
        assert(e2[a] == e[a]);
        if b < e.len() {
            assert(e2[b] == e[b]);
        }
    }
    assert(e2.drop_last() =~= e);
}

/// The pairs up to `i + 1` map as the pairs up to `i` with pair `i` inserted.
pub proof fn lemma_rule_map_take(e: Seq<(Seq<char>, Seq<char>)>, i: int)
    requires
        0 <= i < e.len(),
    ensures
        rule_map(e.take(i + 1)) == rule_map(e.take(i)).insert(e[i].0, e[i].1),
{
    assert(e.take(i + 1).drop_last() =~= e.take(i));
}

/// The position of the pair with key `key`, if there is one.
fn find_key(entries: &Vec<(String, String)>, key: &String) -> (r: Option<usize>)
    ensures
        match r {
            Some(j) => j < entries@.len() && entries@[j as int].0@ == key@,
            None => forall|j: int| 0 <= j < entries@.len() ==> #[trigger] entries@[j].0@ != key@,
        },
{
    let mut j: usize = 0;
    while j < entries.len()
        invariant
            j <= entries@.len(),
            forall|t: int| 0 <= t < j ==> #[trigger] entries@[t].0@ != key@,
        decreases entries@.len() - j,
    {
        if entries[j].0 == *key {
            return Some(j);
        }
        j = j + 1;
    }
    None
}

/// Whether a parsed rule key applies to a parsed request.
pub fn key_admits_request(key: &UrlParts, req: &UrlParts) -> (r: bool)
    ensures
        r == key_admits(key@, req@),
{
    let same_host = match (&key.host, &req.host) {
        (Some(a), Some(b)) => *a == *b,
        _ => false,
    };
    same_host && segment_prefix_of(key.path.as_str(), req.path.as_str())
}

/// The request rewritten onto the physical prefix `phys`.
pub fn rewrite(phys: &UrlParts, req: &UrlParts) -> (r: String)
    ensures
        r@ == rewritten(phys@, req@),
{
    let count = segment_count_of(phys.path.as_str());
    let rest = path_after_segments(req.path.as_str(), count);
    let mut out = phys.serialization.clone();
    proof {
        reveal_strlit("/");
        reveal_strlit("?");
    }
    if rest.as_str().unicode_len() > 0 {
        out.append("/");
        out.append(rest.as_str());
    }
    match &req.query {
        Some(q) => {
            if q.as_str().unicode_len() > 0 {
                out.append("?");
                out.append(q.as_str());
            }
        },
        None => {},
    }
    out
}

/// The position of the preferred rule among those whose parsed key applies
/// to `req`: `parsed[i]` is what the parser made of `keys[i]`. `None` where
/// none applies.
pub fn select_rule(keys: &Vec<String>, parsed: &Vec<Option<UrlParts>>, req: &UrlParts) -> (r: Option<usize>)
    requires
        keys@.len() == parsed@.len(),
        forall|i: int, j: int| 0 <= i < j < keys@.len() ==> #[trigger] keys@[i]@ != #[trigger] keys@[j]@,
    ensures
        match r {
            Some(b) => {
                &&& b < keys@.len()
                &&& parsed_applies(parts_view(parsed@[b as int]), req@)
                &&& forall|j: int|
                    0 <= j < keys@.len() && j != b && #[trigger] parsed_applies(parts_view(parsed@[j]), req@)
                        ==> ranks_above(parts_view(parsed@[b as int]), keys@[b as int]@, parts_view(parsed@[j]), keys@[j]@)
            },
            None => forall|j: int| 0 <= j < keys@.len() ==> !#[trigger] parsed_applies(parts_view(parsed@[j]), req@),
        },
{
    let n = keys.len();
    let mut best: Option<usize> = None;
    let mut best_len: usize = 0;
    let mut i: usize = 0;
    while i < n
        invariant
            n == keys@.len(),
            n == parsed@.len(),
            forall|x: int, y: int| 0 <= x < y < keys@.len() ==> #[trigger] keys@[x]@ != #[trigger] keys@[y]@,
            i <= n,
            match best {
                Some(b) => {
                    &&& b < i
                    &&& parsed_applies(parts_view(parsed@[b as int]), req@)
                    &&& best_len == parsed_path_len(parts_view(parsed@[b as int]))
                    &&& forall|j: int|
                        0 <= j < i && j != b && #[trigger] parsed_applies(parts_view(parsed@[j]), req@)
                            ==> ranks_above(parts_view(parsed@[b as int]), keys@[b as int]@, parts_view(parsed@[j]), keys@[j]@)
                },
                None => forall|j: int| 0 <= j < i ==> !#[trigger] parsed_applies(parts_view(parsed@[j]), req@),
            },
        decreases n - i,
    {
        match &parsed[i] {
            Some(kp) => {
                if key_admits_request(kp, req) {
                    let klen = kp.path.as_str().unicode_len();
                    let take = match best {
                        None => true,
                        Some(b) => klen > best_len || (klen == best_len && lex_less_than(
                            keys[i].as_str(),
                            keys[b].as_str(),
                        )),
                    };
                    let ghost pi = parts_view(parsed@[i as int]);
                    if take {
                        proof {
                            if let Some(b) = best {
                                let pb = parts_view(parsed@[b as int]);
                                assert forall|j: int|
                                    0 <= j < i + 1 && j != i && #[trigger] parsed_applies(parts_view(parsed@[j]), req@)
                                        implies ranks_above(pi, keys@[i as int]@, parts_view(parsed@[j]), keys@[j]@) by {
                                    if j != b {
                                        lemma_ranks_above_transitive(
                                            pi,
                                            keys@[i as int]@,
                                            pb,
                                            keys@[b as int]@,
                                            parts_view(parsed@[j]),
                                            keys@[j]@,
                                        );
                                    }
                                }
                            }
                        }
                        best = Some(i);
                        best_len = klen;
                    } else {
                        proof {
                            if let Some(b) = best {
                                assert(keys@[b as int]@ != keys@[i as int]@);
                                lemma_ranks_above_total(
                                    parts_view(parsed@[b as int]),
                                    keys@[b as int]@,
                                    pi,
                                    keys@[i as int]@,
                                );
                            }
                        }
                    }
                }
            },
            None => {},
        }
        i = i + 1;
    }
    best
}

/// The rewiring rules: a mapping from logical URL prefixes to physical ones.
pub struct RuleSet {
    entries: Vec<(String, String)>,
}

impl View for RuleSet {
    type V = Map<Seq<char>, Seq<char>>;

    closed spec fn view(&self) -> Map<Seq<char>, Seq<char>> {
        rule_map(entries_view(self.entries@))
    }
}

impl RuleSet {
    #[verifier::type_invariant]
    spec fn well_formed(&self) -> bool {
        keys_distinct(entries_view(self.entries@))
    }

    /// A rule set never holds more than finitely many rules.
    pub proof fn lemma_finite(&self)
        ensures
            self@.dom().finite(),
    {
        lemma_rule_map_entries(entries_view(self.entries@));
    }

    /// The rules that inserting the pairs in order gives; where a key comes
    /// twice, the later value stands.
    pub fn new(pairs: Vec<(String, String)>) -> (r: RuleSet)
        ensures
            r@ == rule_map(entries_view(pairs@)),
    {
        let mut entries: Vec<(String, String)> = Vec::new();
        let n = pairs.len();
        let mut i: usize = 0;
        assert(entries_view(pairs@).take(0) =~= Seq::<(Seq<char>, Seq<char>)>::empty());
        assert(entries_view(entries@) =~= Seq::<(Seq<char>, Seq<char>)>::empty());
        while i < n
            invariant
                n == pairs@.len(),
                i <= n,
                keys_distinct(entries_view(entries@)),
                rule_map(entries_view(entries@)) == rule_map(entries_view(pairs@).take(i as int)),
            decreases n - i,
        {
            let key = pairs[i].0.clone();
            let value = pairs[i].1.clone();
            let ghost before = entries_view(entries@);
            proof {
                lemma_rule_map_take(entries_view(pairs@), i as int);
            }
            match find_key(&entries, &key) {
                Some(j) => {
                    entries.set(j, (key, value));
                    proof {
                        lemma_rule_map_update(before, j as int, key@, value@);
                        assert(entries_view(entries@) =~= before.update(j as int, (key@, value@)));
                    }
                },
                None => {
                    entries.push((key, value));
                    proof {
                        assert forall|j: int| 0 <= j < before.len() implies #[trigger] before[j].0 != key@ by {
                            assert(before[j].0 == entries@[j].0@);
                        }
                        lemma_rule_map_push(before, key@, value@);
                        assert(entries_view(entries@) =~= before.push((key@, value@)));
                    }
                },
            }
            i = i + 1;
        }
        assert(entries_view(pairs@).take(n as int) =~= entries_view(pairs@));
        RuleSet { entries }
    }

    /// The URL that a request for `url` goes to: the request rewritten onto
    /// the preferred applicable rule, or `url` itself where the request does
    /// not parse, no rule applies, or the chosen rule's target does not parse.
    pub fn resolve(&self, url: &str) -> (r: String)
        ensures
            r@ == resolved_url(self@, url@),
    {
        proof {
            use_type_invariant(self);
        }
        let ghost ev = entries_view(self.entries@);
        proof {
            lemma_rule_map_entries(ev);
        }
        let req = match parse_url(url) {
            Some(p) => p,
            None => return String::from_str(url),
        };
        let n = self.entries.len();
        let mut keys: Vec<String> = Vec::new();
        let mut parsed: Vec<Option<UrlParts>> = Vec::new();
        let mut i: usize = 0;
        while i < n
            invariant
                n == ev.len(),
                ev == entries_view(self.entries@),
                i <= n,
                keys@.len() == i,
                parsed@.len() == i,
                forall|j: int| 0 <= j < i ==> #[trigger] keys@[j]@ == ev[j].0,
                forall|j: int| 0 <= j < i ==> #[trigger] parts_view(parsed@[j]) == url_of(ev[j].0),
            decreases n - i,
        {
            keys.push(self.entries[i].0.clone());
            parsed.push(parse_url(self.entries[i].0.as_str()));
            i = i + 1;
        }
        assert forall|x: int, y: int| 0 <= x < y < keys@.len() implies #[trigger] keys@[x]@ != #[trigger] keys@[y]@ by {
            assert(ev[x].0 != ev[y].0);
        }
        let best = select_rule(&keys, &parsed, &req);
        assert forall|j: int| 0 <= j < n implies #[trigger] rule_applies(ev[j].0, req@) == parsed_applies(
            parts_view(parsed@[j]),
            req@,
        ) by {
            assert(parts_view(parsed@[j]) == url_of(ev[j].0));
        }
        match best {
            None => {
                proof {
                    assert forall|k: Seq<char>| !is_selected(self@, req@, k) by {
                        if is_selected(self@, req@, k) {
                            let j = choose|j: int| 0 <= j < ev.len() && ev[j].0 == k;
                            assert(!rule_applies(ev[j].0, req@));
                        }
                    }
                }
                String::from_str(url)
            },
            Some(b) => {
                let ghost key = ev[b as int].0;
                proof {
                    assert forall|other: Seq<char>|
                        #![trigger self@.contains_key(other)]
                        self@.contains_key(other) && rule_applies(other, req@) && other != key implies outranks(
                        key,
                        other,
                    ) by {
                        let j = choose|j: int| 0 <= j < ev.len() && ev[j].0 == other;
                        assert(rule_applies(ev[j].0, req@));
                    }
                    assert(is_selected(self@, req@, key));
                    let chosen = choose|k: Seq<char>| is_selected(self@, req@, k);
                    lemma_selected_unique(self@, req@, chosen, key);
                    assert(self@[key] == ev[b as int].1);
                }
                match parse_url(self.entries[b].1.as_str()) {
                    None => String::from_str(url),
                    Some(phys) => rewrite(&phys, &req),
                }
            },
        }
    }
}

} // verus!
