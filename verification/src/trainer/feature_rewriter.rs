//! Rewriting of feature lists by patterns that a prefix trie holds.
//!
//! A rule pairs a pattern, one entry per feature, with a rewrite, one entry per
//! output feature. A pattern entry is `*` (any feature), `(a|b|..)` (one of the
//! listed features) or a feature itself. A rewrite entry is `$n` (the `n`-th input
//! feature, counted from 1) or a text taken as it is.
use vstd::prelude::*;
use vstd::slice::slice_subrange;

use crate::errors::VibratoError;
use crate::utils::{
    all_digits, chars_of, digits_value, parse_usize, spec_split, split_char, str_eq,
    str_set_view, string_from_chars, StrSet,
};

verus! {

// ---------------------------------------------------------------------
// The rule language
// ---------------------------------------------------------------------

/// What one pattern entry accepts.
pub enum PatternSpec {
    /// Any feature.
    Any,
    /// This feature only.
    Exact(Seq<char>),
    /// Any feature of the set.
    Multiple(Set<Seq<char>>),
}

/// One entry of a rewrite.
pub enum RewriteSpec {
    /// The input feature at this position, counted from 1.
    Reference(int),
    /// This text.
    Text(Seq<char>),
}

/// The pattern entry that `p` denotes: `*`, `(a|b|..)` or the feature itself.
pub open spec fn parse_pattern(p: Seq<char>) -> PatternSpec {
    if p == seq!['*'] {
        PatternSpec::Any
    } else if p.len() > 0 && p[0] == '(' && p.last() == ')' {
        PatternSpec::Multiple(spec_split(p.subrange(1, p.len() - 1), '|').to_set())
    } else {
        PatternSpec::Exact(p)
    }
}

/// The text of the regular expression `^\$([0-9]+)$` that recognises a reference.
pub open spec fn reference_regex() -> Seq<char> {
    seq!['^', '\\', '$', '(', '[', '0', '-', '9', ']', '+', ')', '$']
}

/// The digits of a reference `$n`: `p` is `$` followed by one or more ASCII digits
/// and nothing else.
pub open spec fn ref_digits(p: Seq<char>) -> Option<Seq<char>> {
    if p.len() >= 2 && p[0] == '$' && all_digits(p.drop_first(), 10) {
        Some(p.drop_first())
    } else {
        None
    }
}

/// The rewrite entry that `p` denotes.
pub open spec fn parse_rewrite(p: Seq<char>) -> RewriteSpec {
    match ref_digits(p) {
        Some(d) => RewriteSpec::Reference(digits_value(d, 10)),
        None => RewriteSpec::Text(p),
    }
}

/// The pattern of a rule, entry by entry.
pub open spec fn parse_patterns(ps: Seq<&str>) -> Seq<PatternSpec> {
    Seq::new(ps.len(), |i: int| parse_pattern(ps[i]@))
}

/// The rewrite of a rule, entry by entry.
pub open spec fn parse_rewrites(ps: Seq<&str>) -> Seq<RewriteSpec> {
    Seq::new(ps.len(), |i: int| parse_rewrite(ps[i]@))
}

/// The references of `ps` fit in a `usize`.
pub open spec fn references_fit(ps: Seq<&str>) -> bool {
    forall|i: int|
        0 <= i < ps.len() ==> (#[trigger] ref_digits(ps[i]@) matches Some(d) ==> digits_value(
            d,
            10,
        ) <= usize::MAX)
}

/// Whether a pattern entry accepts the feature `f`.
pub open spec fn accepts(p: PatternSpec, f: Seq<char>) -> bool {
    match p {
        PatternSpec::Any => true,
        PatternSpec::Exact(s) => f == s,
        PatternSpec::Multiple(s) => s.contains(f),
    }
}

/// A pattern accepts a list of features: one entry per feature, each accepting its one.
pub open spec fn accepts_all(ps: Seq<PatternSpec>, fs: Seq<Seq<char>>) -> bool {
    ps.len() == fs.len() && forall|i: int| 0 <= i < ps.len() ==> accepts(ps[i], #[trigger] fs[i])
}

/// The features that a rewrite gives from the input features `fs`.
pub open spec fn apply_rewrite(rule: Seq<RewriteSpec>, fs: Seq<Seq<char>>) -> Seq<Seq<char>> {
    Seq::new(
        rule.len(),
        |k: int|
            match rule[k] {
                RewriteSpec::Reference(i) => fs[i - 1],
                RewriteSpec::Text(s) => s,
            },
    )
}

/// Every reference of every rule points at a feature that the rule's pattern has.
pub open spec fn references_within(rules: Map<Seq<PatternSpec>, Seq<RewriteSpec>>) -> bool {
    forall|p: Seq<PatternSpec>, k: int|
        #![trigger rules[p][k]]
        rules.contains_key(p) && 0 <= k < rules[p].len() ==> (rules[p][k] matches RewriteSpec::Reference(
            i,
        ) ==> 1 <= i <= p.len())
}

/// The features of a slice of strings.
pub open spec fn texts(fs: Seq<&str>) -> Seq<Seq<char>> {
    Seq::new(fs.len(), |i: int| fs[i]@)
}

// ---------------------------------------------------------------------
// Patterns and rewrites
// ---------------------------------------------------------------------

/// One pattern entry.
enum Pattern {
    Any,
    Exact(String),
    Multiple(StrSet),
}

impl Pattern {
    spec fn view(&self) -> PatternSpec {
        match self {
            Pattern::Any => PatternSpec::Any,
            Pattern::Exact(s) => PatternSpec::Exact(s@),
            Pattern::Multiple(s) => PatternSpec::Multiple(str_set_view(*s)),
        }
    }

    /// Whether the entry accepts the feature `f`.
    fn accepts(&self, f: &str) -> (r: bool)
        ensures
            r == accepts(self.view(), f@),
    {
        match self {
            Pattern::Any => true,
            Pattern::Exact(s) => str_eq(f, s.as_str()),
            Pattern::Multiple(s) => s.contains(f),
        }
    }

    /// Whether two entries denote the same pattern.
    fn same_as(&self, other: &Pattern) -> (r: bool)
        ensures
            r == (self.view() == other.view()),
    {
        match (self, other) {
            (Pattern::Any, Pattern::Any) => true,
            (Pattern::Exact(a), Pattern::Exact(b)) => str_eq(a.as_str(), b.as_str()),
            (Pattern::Multiple(a), Pattern::Multiple(b)) => a.set_eq(b),
            _ => false,
        }
    }
}

/// Reads a pattern entry.
fn read_pattern(p: &str) -> (r: Pattern)
    ensures
        r.view() == parse_pattern(p@),
{
    let star = "*";
    proof {
        reveal_strlit("*");
        assert(star@ =~= seq!['*']);
    }
    if str_eq(p, star) {
        assert(p@ =~= seq!['*']);
        return Pattern::Any;
    }
    assert(p@ != seq!['*']);
    let c = chars_of(p);
    let n = c.len();
    if n > 0 && c[0] == '(' && c[n - 1] == ')' {
        let inner = slice_subrange(c.as_slice(), 1, n - 1);
        let pieces = split_char(inner, '|');
        let ghost ps = pieces.deep_view();
        assert(inner@ =~= p@.subrange(1, p@.len() - 1));
        let mut set = StrSet::new();
        let mut k: usize = 0;
        assert(ps.take(0).to_set() =~= Set::<Seq<char>>::empty());
        while k < pieces.len()
            invariant
                k <= pieces.len(),
                ps == pieces.deep_view(),
                str_set_view(set) == ps.take(k as int).to_set(),
            decreases pieces.len() - k,
        {
            assert(pieces@[k as int]@ == ps[k as int]);
            let s = string_from_chars(pieces[k].as_slice());
            set.insert(s);
            proof {
                let t1 = ps.take(k + 1);
                let t0 = ps.take(k as int);
                assert forall|x: Seq<char>| t1.to_set().contains(x) implies t0.to_set().insert(
                    ps[k as int],
                ).contains(x) by {
                    let i = choose|i: int| 0 <= i < t1.len() && #[trigger] t1[i] == x;
                    if i < k {
                        assert(t0[i] == x);
                    }
                }
                assert forall|x: Seq<char>| t0.to_set().insert(ps[k as int]).contains(x) implies t1.to_set().contains(x) by {
                    if x == ps[k as int] {
                        assert(t1[k as int] == x);
                    } else {
                        let i = choose|i: int| 0 <= i < t0.len() && #[trigger] t0[i] == x;
                        assert(t1[i] == x);
                    }
                }
                assert(t1.to_set() =~= t0.to_set().insert(ps[k as int]));
            }
            k = k + 1;
        }
        assert(ps.take(ps.len() as int) =~= ps);
        Pattern::Multiple(set)
    } else {
        Pattern::Exact(String::from_str(p))
    }
}

/// One rewrite entry.
enum Rewrite {
    Reference(usize),
    Text(String),
}

impl Rewrite {
    spec fn view(&self) -> RewriteSpec {
        match self {
            Rewrite::Reference(i) => RewriteSpec::Reference(*i as int),
            Rewrite::Text(s) => RewriteSpec::Text(s@),
        }
    }
}

/// The view of a rewrite.
spec fn rewrite_view(r: Seq<Rewrite>) -> Seq<RewriteSpec> {
    Seq::new(r.len(), |k: int| r[k].view())
}

/// `regex::Regex::new(pattern)` followed by `Regex::captures(haystack)`, for the
/// pattern `^\$([0-9]+)$`: it matches exactly when the haystack is `$` followed by
/// one or more ASCII digits (`[0-9]`) and nothing else (`^` and `$` anchor at the
/// ends of the haystack), and the first group then holds the digits. The pattern is
/// compiled on every call.
#[verifier::external_body]
fn reference_captures(pattern: &str, haystack: &str) -> (r: Option<String>)
    requires
        pattern@ == reference_regex(),
    ensures
        r is Some <==> ref_digits(haystack@) is Some,
        r matches Some(d) ==> ref_digits(haystack@) == Some(d@),
{
    regex::Regex::new(pattern).unwrap().captures(haystack).map(|c| c[1].to_string())
}

/// Reads a rewrite entry.
fn read_rewrite(p: &str) -> (r: Rewrite)
    requires
        ref_digits(p@) matches Some(d) ==> digits_value(d, 10) <= usize::MAX,
    ensures
        r.view() == parse_rewrite(p@),
{
    let pattern = "^\\$([0-9]+)$";
    proof {
        reveal_strlit("^\\$([0-9]+)$");
        assert(pattern@ =~= reference_regex());
    }
    match reference_captures(pattern, p) {
        Some(d) => {
            let ds = chars_of(d.as_str());
            assert(ds@[0] != '+') by {
                assert(crate::utils::digit_of(ds@[0], 10) >= 0);
            }
            proof {
                crate::utils::lemma_digits_value_nonneg(ds@, 10);
            }
            match parse_usize(ds.as_slice(), 10) {
                Ok(v) => Rewrite::Reference(v),
                Err(_) => {
                    assert(false);
                    Rewrite::Text(String::from_str(p))
                },
            }
        },
        None => Rewrite::Text(String::from_str(p)),
    }
}

// ---------------------------------------------------------------------
// The trie
// ---------------------------------------------------------------------

/// An edge to the node of a longer pattern.
struct Edge {
    pattern: Pattern,
    target: usize,
}

/// A node of the trie: the pattern of its path, entry by entry, is the list of the
/// patterns on the edges from the root; the node holds the rewrite of that pattern,
/// if it is a rule.
struct Node {
    edges: Vec<Edge>,
    rewrite_rule: Option<Vec<Rewrite>>,
}

/// The rewrite that a node holds.
spec fn rule_of(n: Node) -> Option<Seq<RewriteSpec>> {
    match n.rewrite_rule {
        Some(r) => Some(rewrite_view(r@)),
        None => None,
    }
}

/// Edge `j` of node `n` leads to node `c`.
spec fn is_edge(t: Seq<Node>, n: int, j: int, c: int) -> bool {
    0 <= n < t.len() && 0 <= j < t[n].edges@.len() && t[n].edges@[j].target == c
}

/// Some edge leads to node `c`.
spec fn has_parent(t: Seq<Node>, c: int) -> bool {
    exists|n: int, j: int| #[trigger] is_edge(t, n, j, c)
}

/// The trie `t`, where node `n` is reached by the pattern `paths[n]`, holds exactly
/// the rules of `rules`.
spec fn trie_wf(
    t: Seq<Node>,
    paths: Seq<Seq<PatternSpec>>,
    rules: Map<Seq<PatternSpec>, Seq<RewriteSpec>>,
) -> bool {
    &&& t.len() >= 1
    &&& t.len() <= usize::MAX
    &&& paths.len() == t.len()
    &&& paths[0] == Seq::<PatternSpec>::empty()
    &&& forall|n: int, j: int|
        0 <= n < t.len() && 0 <= j < t[n].edges@.len() ==> 0 < (#[trigger] t[n].edges@[j]).target
            < t.len() && paths[t[n].edges@[j].target as int] == paths[n].push(
            t[n].edges@[j].pattern.view(),
        )
    &&& forall|a: int, b: int|
        0 <= a < t.len() && 0 <= b < t.len() && #[trigger] paths[a] == #[trigger] paths[b] ==> a
            == b
    &&& forall|c: int| 0 < c < t.len() ==> #[trigger] has_parent(t, c)
    &&& forall|n: int|
        0 <= n < t.len() ==> ((#[trigger] t[n]).rewrite_rule is Some <==> rules.contains_key(
            paths[n],
        ))
    &&& forall|n: int|
        0 <= n < t.len() && (#[trigger] t[n]).rewrite_rule is Some ==> rules[paths[n]] == rule_of(
            t[n],
        )->0
    &&& forall|p: Seq<PatternSpec>|
        #[trigger] rules.contains_key(p) ==> exists|n: int| 0 <= n < t.len() && #[trigger] paths[n] == p
}

/// The node of the path of `m` cut to its first `k` entries.
proof fn lemma_ancestor(
    t: Seq<Node>,
    paths: Seq<Seq<PatternSpec>>,
    rules: Map<Seq<PatternSpec>, Seq<RewriteSpec>>,
    m: int,
    k: int,
) -> (a: int)
    requires
        trie_wf(t, paths, rules),
        0 <= m < t.len(),
        0 <= k <= paths[m].len(),
    ensures
        0 <= a < t.len(),
        paths[a] == paths[m].take(k),
    decreases paths[m].len(),
{
    if k == paths[m].len() {
        assert(paths[m].take(k) =~= paths[m]);
        m
    } else {
        assert(m != 0);
        assert(has_parent(t, m));
        let (n, j) = choose|n: int, j: int| is_edge(t, n, j, m);
        let e = t[n].edges@[j];
        assert(paths[m] == paths[n].push(e.pattern.view()));
        assert(paths[n] =~= paths[m].drop_last());
        let a = lemma_ancestor(t, paths, rules, n, k);
        assert(paths[n].take(k) =~= paths[m].take(k));
        a
    }
}

/// Of two found nodes, the one whose rule was registered earlier (the first on a
/// tie); a node not found loses.
spec fn earlier(ord: Seq<usize>, a: Option<int>, b: Option<int>) -> Option<int> {
    match (a, b) {
        (None, _) => b,
        (_, None) => a,
        (Some(x), Some(y)) => if ord[x] <= ord[y] {
            a
        } else {
            b
        },
    }
}

proof fn lemma_earlier_assoc(ord: Seq<usize>, a: Option<int>, b: Option<int>, c: Option<int>)
    ensures
        earlier(ord, a, earlier(ord, b, c)) == earlier(ord, earlier(ord, a, b), c),
{
}

/// The node with a rule registered earliest among those below node `n` at depth
/// `d`, reached through the edges of `n` from the `j`-th on, whose pattern entries
/// each accept the feature at their depth.
spec fn best(t: Seq<Node>, ord: Seq<usize>, fs: Seq<Seq<char>>, n: int, d: int, j: int) -> Option<int>
    decreases fs.len() - d, t[n].edges@.len() - j,
{
    if d >= fs.len() {
        if t[n].rewrite_rule is Some {
            Some(n)
        } else {
            None
        }
    } else if j < 0 || j >= t[n].edges@.len() {
        None
    } else {
        let e = t[n].edges@[j];
        let sub = if accepts(e.pattern.view(), fs[d]) {
            best(t, ord, fs, e.target as int, d + 1, 0)
        } else {
            None
        };
        earlier(ord, sub, best(t, ord, fs, n, d, j + 1))
    }
}

/// What the search finds has a rule whose pattern accepts the features.
proof fn lemma_best_sound(
    t: Seq<Node>,
    ord: Seq<usize>,
    paths: Seq<Seq<PatternSpec>>,
    rules: Map<Seq<PatternSpec>, Seq<RewriteSpec>>,
    fs: Seq<Seq<char>>,
    n: int,
    d: int,
    j: int,
)
    requires
        trie_wf(t, paths, rules),
        0 <= n < t.len(),
        paths[n].len() == d,
        0 <= d <= fs.len(),
    ensures
        best(t, ord, fs, n, d, j) matches Some(m) ==> {
            &&& 0 <= m < t.len()
            &&& t[m].rewrite_rule is Some
            &&& paths[m].len() == fs.len()
            &&& paths[m].take(d) == paths[n]
            &&& forall|i: int| d <= i < fs.len() ==> accepts(paths[m][i], #[trigger] fs[i])
        },
    decreases fs.len() - d, t[n].edges@.len() - j,
{
    if d >= fs.len() {
        assert(paths[n].take(d) =~= paths[n]);
    } else if j < 0 || j >= t[n].edges@.len() {
    } else {
        let e = t[n].edges@[j];
        let c = e.target as int;
        if accepts(e.pattern.view(), fs[d]) {
            lemma_best_sound(t, ord, paths, rules, fs, c, d + 1, 0);
            if let Some(m) = best(t, ord, fs, c, d + 1, 0) {
                assert(paths[m].take(d) =~= paths[m].take(d + 1).take(d));
                assert(paths[c].take(d) =~= paths[n]);
                assert(paths[m][d] == paths[m].take(d + 1)[d]);
            }
        }
        lemma_best_sound(t, ord, paths, rules, fs, n, d, j + 1);
    }
}

/// The search finds a node, registered no later than `m`, whenever the pattern of
/// the rule of node `m`, which no edge before the `j`-th leads to, accepts the
/// features.
proof fn lemma_best_min(
    t: Seq<Node>,
    ord: Seq<usize>,
    paths: Seq<Seq<PatternSpec>>,
    rules: Map<Seq<PatternSpec>, Seq<RewriteSpec>>,
    fs: Seq<Seq<char>>,
    n: int,
    d: int,
    j: int,
    m: int,
)
    requires
        trie_wf(t, paths, rules),
        ord.len() == t.len(),
        0 <= n < t.len(),
        paths[n].len() == d,
        0 <= d <= fs.len(),
        0 <= j,
        0 <= m < t.len(),
        t[m].rewrite_rule is Some,
        paths[m].len() == fs.len(),
        paths[m].take(d) == paths[n],
        forall|i: int| d <= i < fs.len() ==> accepts(paths[m][i], #[trigger] fs[i]),
        d < fs.len() ==> forall|i: int|
            0 <= i < j && i < t[n].edges@.len() ==> paths[(#[trigger] t[n].edges@[i]).target as int]
                != paths[m].take(d + 1),
    ensures
        best(t, ord, fs, n, d, j) matches Some(b) && 0 <= b < t.len() && ord[b] <= ord[m],
    decreases fs.len() - d, t[n].edges@.len() - j,
{
    if d >= fs.len() {
        assert(paths[m].take(d) =~= paths[m]);
        assert(paths[m] == paths[n]);
    } else {
        let c = lemma_ancestor(t, paths, rules, m, d + 1);
        assert(c != 0) by {
            assert(paths[c].len() == d + 1);
        }
        assert(has_parent(t, c));
        let (n2, jc) = choose|n2: int, jc: int| is_edge(t, n2, jc, c);
        assert(paths[n2] =~= paths[c].drop_last());
        assert(paths[c].drop_last() =~= paths[m].take(d));
        assert(n2 == n);
        assert(jc >= j);
        let e = t[n].edges@[j];
        let tj = e.target as int;
        if paths[tj] == paths[m].take(d + 1) {
            assert(paths[tj].last() == e.pattern.view());
            assert(paths[m].take(d + 1).last() == paths[m][d]);
            lemma_best_min(t, ord, paths, rules, fs, tj, d + 1, 0, m);
            lemma_best_sound(t, ord, paths, rules, fs, n, d, j + 1);
        } else {
            lemma_best_min(t, ord, paths, rules, fs, n, d, j + 1, m);
            if accepts(e.pattern.view(), fs[d]) {
                lemma_best_sound(t, ord, paths, rules, fs, tj, d + 1, 0);
            }
        }
    }
}

/// The nodes that hold a rule.
spec fn rule_nodes(t: Seq<Node>) -> Set<int> {
    Set::new(|n: int| 0 <= n < t.len() && t[n].rewrite_rule is Some)
}

/// `orders` holds, at each node with a rule, the place of that rule in the order of
/// registration, `order` maps each pattern to it, and `count` rules were
/// registered, each with its own place below `count`.
spec fn orders_ok(
    t: Seq<Node>,
    paths: Seq<Seq<PatternSpec>>,
    rules: Map<Seq<PatternSpec>, Seq<RewriteSpec>>,
    orders: Seq<usize>,
    order: Map<Seq<PatternSpec>, nat>,
    count: nat,
) -> bool {
    &&& orders.len() == t.len()
    &&& forall|n: int|
        0 <= n < t.len() && (#[trigger] t[n]).rewrite_rule is Some ==> orders[n] == order[paths[n]]
    &&& forall|p: Seq<PatternSpec>| #[trigger] order.contains_key(p) <==> rules.contains_key(p)
    &&& forall|p: Seq<PatternSpec>| #[trigger] order.contains_key(p) ==> order[p] < count
    &&& forall|p: Seq<PatternSpec>, q: Seq<PatternSpec>|
        #[trigger] order.contains_key(p) && #[trigger] order.contains_key(q) && p != q ==> order[p]
            != order[q]
    &&& rule_nodes(t).finite()
    &&& rule_nodes(t).len() == count
}

/// There are no more rules than nodes.
proof fn lemma_count_bound(t: Seq<Node>)
    ensures
        rule_nodes(t).finite(),
        rule_nodes(t).len() <= t.len(),
{
    let r = Set::new(|n: int| 0 <= n < t.len());
    assert(r =~= vstd::set_lib::set_int_range(0, t.len() as int));
    vstd::set_lib::lemma_int_range(0, t.len() as int);
    assert(rule_nodes(t).subset_of(r));
    vstd::set_lib::lemma_len_subset(rule_nodes(t), r);
}

/// Adding a node below `cursor` by an edge whose pattern entry no edge of `cursor`
/// has keeps the trie well formed, with the rules as they were.
proof fn lemma_add_child(
    t: Seq<Node>,
    paths: Seq<Seq<PatternSpec>>,
    rules: Map<Seq<PatternSpec>, Seq<RewriteSpec>>,
    cursor: int,
    pv: PatternSpec,
    t2: Seq<Node>,
)
    requires
        trie_wf(t, paths, rules),
        0 <= cursor < t.len(),
        forall|j: int|
            0 <= j < t[cursor].edges@.len() ==> (#[trigger] t[cursor].edges@[j]).pattern.view() != pv,
        t2.len() == t.len() + 1,
        t2.len() <= usize::MAX,
        forall|n: int| 0 <= n < t.len() && n != cursor ==> #[trigger] t2[n] == t[n],
        t2[cursor].edges@.len() == t[cursor].edges@.len() + 1,
        forall|j: int|
            0 <= j < t[cursor].edges@.len() ==> #[trigger] t2[cursor].edges@[j] == t[cursor].edges@[j],
        t2[cursor].edges@.last().target == t.len(),
        t2[cursor].edges@.last().pattern.view() == pv,
        t2[cursor].rewrite_rule == t[cursor].rewrite_rule,
        t2[t.len() as int].edges@.len() == 0,
        t2[t.len() as int].rewrite_rule is None,
    ensures
        trie_wf(t2, paths.push(paths[cursor].push(pv)), rules),
{
    let q = paths[cursor].push(pv);
    let paths2 = paths.push(q);
    let new = t.len() as int;
    // No node of `t` has the new path.
    assert forall|b: int| 0 <= b < t.len() implies paths[b] != q by {
        if paths[b] == q {
            assert(b != 0) by {
                assert(q.len() > 0);
            }
            assert(has_parent(t, b));
            let (n, j) = choose|n: int, j: int| is_edge(t, n, j, b);
            let e = t[n].edges@[j];
            assert(paths[b] == paths[n].push(e.pattern.view()));
            assert(paths[n] =~= q.drop_last());
            assert(paths[cursor] =~= q.drop_last());
            assert(n == cursor);
            assert(q.last() == pv);
            assert(paths[b].last() == e.pattern.view());
        }
    }
    assert forall|n: int, j: int|
        0 <= n < t2.len() && 0 <= j < t2[n].edges@.len() implies 0 < (
        #[trigger] t2[n].edges@[j]).target < t2.len() && paths2[t2[n].edges@[j].target as int]
        == paths2[n].push(t2[n].edges@[j].pattern.view()) by {
        if n == cursor && j == t[cursor].edges@.len() {
        } else if n == cursor {
            assert(t2[n].edges@[j] == t[n].edges@[j]);
        } else {
            assert(t2[n] == t[n]);
        }
    }
    assert forall|a: int, b: int|
        0 <= a < t2.len() && 0 <= b < t2.len() && #[trigger] paths2[a] == #[trigger] paths2[b]
        implies a == b by {
        if a < new && b < new {
            assert(paths2[a] == paths[a] && paths2[b] == paths[b]);
        } else if a < new {
            assert(paths2[a] == paths[a]);
        } else if b < new {
            assert(paths2[b] == paths[b]);
        }
    }
    assert forall|c: int| 0 < c < t2.len() implies #[trigger] has_parent(t2, c) by {
        if c == new {
            assert(is_edge(t2, cursor, t[cursor].edges@.len() as int, c));
        } else {
            assert(has_parent(t, c));
            let (n, j) = choose|n: int, j: int| is_edge(t, n, j, c);
            if n == cursor {
                assert(t2[cursor].edges@[j] == t[cursor].edges@[j]);
            } else {
                assert(t2[n] == t[n]);
            }
            assert(is_edge(t2, n, j, c));
        }
    }
    assert forall|n: int|
        0 <= n < t2.len() implies ((#[trigger] t2[n]).rewrite_rule is Some
        <==> rules.contains_key(paths2[n])) by {
        if n == new {
            if rules.contains_key(q) {
                let b = choose|b: int| 0 <= b < t.len() && #[trigger] paths[b] == q;
            }
        } else if n != cursor {
            assert(t2[n] == t[n]);
        }
    }
    assert forall|n: int|
        0 <= n < t2.len() && (#[trigger] t2[n]).rewrite_rule is Some implies rules[paths2[n]]
        == rule_of(t2[n])->0 by {
        if n != cursor && n != new {
            assert(t2[n] == t[n]);
        }
    }
    assert forall|p: Seq<PatternSpec>| #[trigger] rules.contains_key(p) implies exists|n: int|
        0 <= n < t2.len() && #[trigger] paths2[n] == p by {
        let n = choose|n: int| 0 <= n < t.len() && #[trigger] paths[n] == p;
        assert(paths2[n] == p);
    }
}

/// Giving the rule node `cursor`, which had none, the rewrite `rr` keeps the trie
/// well formed with the rule added.
proof fn lemma_set_rule(
    t: Seq<Node>,
    paths: Seq<Seq<PatternSpec>>,
    rules: Map<Seq<PatternSpec>, Seq<RewriteSpec>>,
    cursor: int,
    t2: Seq<Node>,
)
    requires
        trie_wf(t, paths, rules),
        0 <= cursor < t.len(),
        t[cursor].rewrite_rule is None,
        t2.len() == t.len(),
        forall|n: int| 0 <= n < t.len() && n != cursor ==> #[trigger] t2[n] == t[n],
        t2[cursor].edges == t[cursor].edges,
        t2[cursor].rewrite_rule is Some,
    ensures
        trie_wf(t2, paths, rules.insert(paths[cursor], rule_of(t2[cursor])->0)),
{
    let p = paths[cursor];
    let rules2 = rules.insert(p, rule_of(t2[cursor])->0);
    assert forall|n: int, j: int|
        0 <= n < t2.len() && 0 <= j < t2[n].edges@.len() implies 0 < (
        #[trigger] t2[n].edges@[j]).target < t2.len() && paths[t2[n].edges@[j].target as int]
        == paths[n].push(t2[n].edges@[j].pattern.view()) by {
        if n != cursor {
            assert(t2[n] == t[n]);
        } else {
            assert(t2[n].edges@[j] == t[n].edges@[j]);
        }
    }
    assert forall|c: int| 0 < c < t2.len() implies #[trigger] has_parent(t2, c) by {
        assert(has_parent(t, c));
        let (n, j) = choose|n: int, j: int| is_edge(t, n, j, c);
        if n != cursor {
            assert(t2[n] == t[n]);
        }
        assert(is_edge(t2, n, j, c));
    }
    assert forall|n: int|
        0 <= n < t2.len() implies ((#[trigger] t2[n]).rewrite_rule is Some
        <==> rules2.contains_key(paths[n])) by {
        if n != cursor {
            assert(t2[n] == t[n]);
            assert(paths[n] != p);
        }
    }
    assert forall|n: int|
        0 <= n < t2.len() && (#[trigger] t2[n]).rewrite_rule is Some implies rules2[paths[n]]
        == rule_of(t2[n])->0 by {
        if n != cursor {
            assert(t2[n] == t[n]);
            assert(paths[n] != p);
        }
    }
    assert forall|q: Seq<PatternSpec>| #[trigger] rules2.contains_key(q) implies exists|n: int|
        0 <= n < t2.len() && #[trigger] paths[n] == q by {
        if q == p {
            assert(paths[cursor] == q);
        } else {
            let n = choose|n: int| 0 <= n < t.len() && #[trigger] paths[n] == q;
        }
    }
}

// ---------------------------------------------------------------------
// Building
// ---------------------------------------------------------------------

/// Every reference of the rewrite `rr` is between 1 and `n`.
fn references_in(rr: &Vec<Rewrite>, n: usize) -> (r: bool)
    ensures
        r == forall|k: int|
            0 <= k < rr@.len() ==> (#[trigger] rewrite_view(rr@)[k] matches RewriteSpec::Reference(i)
                ==> 1 <= i <= n),
{
    let mut k: usize = 0;
    while k < rr.len()
        invariant
            k <= rr@.len(),
            forall|j: int|
                0 <= j < k ==> (#[trigger] rewrite_view(rr@)[j] matches RewriteSpec::Reference(i) ==> 1
                    <= i <= n),
        decreases rr@.len() - k,
    {
        if let Rewrite::Reference(i) = &rr[k] {
            if *i < 1 || *i > n {
                assert(rewrite_view(rr@)[k as int] == RewriteSpec::Reference(*i as int));
                return false;
            }
        }
        k = k + 1;
    }
    true
}

/// Builder of a [`FeatureRewriter`]: a prefix trie that holds the patterns, entry by
/// entry, with the rewrite of each at the node where its pattern ends.
pub struct FeatureRewriterBuilder {
    nodes: Vec<Node>,
    refs_ok: bool,
    orders: Vec<usize>,
    count: usize,
    paths: Ghost<Seq<Seq<PatternSpec>>>,
    rules: Ghost<Map<Seq<PatternSpec>, Seq<RewriteSpec>>>,
    order: Ghost<Map<Seq<PatternSpec>, nat>>,
}

impl FeatureRewriterBuilder {
    /// The builder's trie is well formed.
    pub closed spec fn wf(&self) -> bool {
        &&& trie_wf(self.nodes@, self.paths@, self.rules@)
        &&& self.refs_ok == references_within(self.rules@)
        &&& orders_ok(self.nodes@, self.paths@, self.rules@, self.orders@, self.order@, self.count as nat)
    }

    /// The rules added so far: the rewrite of each pattern.
    pub closed spec fn rules(&self) -> Map<Seq<PatternSpec>, Seq<RewriteSpec>> {
        self.rules@
    }

    /// The place of each rule in the order in which the rules were added, from 0.
    pub closed spec fn order(&self) -> Map<Seq<PatternSpec>, nat> {
        self.order@
    }

    /// The number of rules added.
    pub closed spec fn num_rules(&self) -> nat {
        self.count as nat
    }

    /// The features that the rules give for `fs`, as [`FeatureRewriter::rewrite`]
    /// returns them.
    pub closed spec fn rewritten(&self, fs: Seq<Seq<char>>) -> Option<Seq<Seq<char>>> {
        match best(self.nodes@, self.orders@, fs, 0, 0, 0) {
            Some(m) => Some(apply_rewrite(rule_of(self.nodes@[m])->0, fs)),
            None => None,
        }
    }

    /// Creates a builder without rules.
    pub fn new() -> (r: Self)
        ensures
            r.wf(),
            r.rules() == Map::<Seq<PatternSpec>, Seq<RewriteSpec>>::empty(),
            r.order() == Map::<Seq<PatternSpec>, nat>::empty(),
            r.num_rules() == 0,
    {
        let mut nodes: Vec<Node> = Vec::new();
        nodes.push(Node { edges: Vec::new(), rewrite_rule: None });
        let mut orders: Vec<usize> = Vec::new();
        orders.push(0);
        let ghost p0 = seq![Seq::<PatternSpec>::empty()];
        let ghost r0 = Map::<Seq<PatternSpec>, Seq<RewriteSpec>>::empty();
        let ghost o0 = Map::<Seq<PatternSpec>, nat>::empty();
        let r = Self {
            nodes,
            refs_ok: true,
            orders,
            count: 0,
            paths: Ghost(p0),
            rules: Ghost(r0),
            order: Ghost(o0),
        };
        assert(rule_nodes(r.nodes@) =~= Set::<int>::empty());
        r
    }

    /// The edge of node `cursor` whose pattern entry is `p`, if there is one.
    fn find_edge(&self, cursor: usize, p: &Pattern) -> (r: Option<usize>)
        requires
            cursor < self.nodes@.len(),
        ensures
            r matches Some(c) ==> exists|j: int|
                0 <= j < self.nodes@[cursor as int].edges@.len() && #[trigger] self.nodes@[cursor as int].edges@[j].target == c
                    && self.nodes@[cursor as int].edges@[j].pattern.view() == p.view(),
            r is None ==> forall|j: int|
                0 <= j < self.nodes@[cursor as int].edges@.len() ==> (
                #[trigger] self.nodes@[cursor as int].edges@[j]).pattern.view() != p.view(),
    {
        let mut j: usize = 0;
        while j < self.nodes[cursor].edges.len()
            invariant
                cursor < self.nodes@.len(),
                j <= self.nodes@[cursor as int].edges@.len(),
                forall|i: int|
                    0 <= i < j ==> (#[trigger] self.nodes@[cursor as int].edges@[i]).pattern.view()
                        != p.view(),
            decreases self.nodes@[cursor as int].edges@.len() - j,
        {
            if self.nodes[cursor].edges[j].pattern.same_as(p) {
                return Some(self.nodes[cursor].edges[j].target);
            }
            j = j + 1;
        }
        None
    }

    /// Adds a rule: the features that `pattern` accepts, entry by entry, are
    /// rewritten by `rewrite`. A pattern that is already there is refused, and the
    /// builder stays as it was.
    pub fn add_rule(&mut self, pattern: &[&str], rewrite: &[&str]) -> (r: Result<(), VibratoError>)
        requires
            old(self).wf(),
            references_fit(rewrite@),
        ensures
            final(self).wf(),
            r is Err <==> old(self).rules().contains_key(parse_patterns(pattern@)),
            r is Err ==> final(self).rules() == old(self).rules() && forall|fs: Seq<Seq<char>>|
                #[trigger] final(self).rewritten(fs) == old(self).rewritten(fs),
            r is Ok ==> final(self).rules() == old(self).rules().insert(
                parse_patterns(pattern@),
                parse_rewrites(rewrite@),
            ),
            r is Ok ==> final(self).order() == old(self).order().insert(
                parse_patterns(pattern@),
                old(self).num_rules(),
            ) && final(self).num_rules() == old(self).num_rules() + 1,
            r is Err ==> final(self).order() == old(self).order() && final(self).num_rules()
                == old(self).num_rules(),
            r matches Err(e) ==> e.is_invalid_argument(),
    {
        let ghost ps = parse_patterns(pattern@);
        let mut cursor: usize = 0;
        let ghost mut added = false;
        let mut k: usize = 0;
        assert(ps.take(0) =~= Seq::<PatternSpec>::empty());
        while k < pattern.len()
            invariant
                trie_wf(self.nodes@, self.paths@, self.rules@),
                self.rules@ == old(self).rules@,
                self.refs_ok == references_within(self.rules@),
                self.order@ == old(self).order@,
                self.count == old(self).count,
                orders_ok(self.nodes@, self.paths@, self.rules@, self.orders@, self.order@, self.count as nat),
                !added ==> self.orders@ == old(self).orders@,
                k <= pattern.len(),
                ps == parse_patterns(pattern@),
                cursor < self.nodes@.len(),
                self.paths@[cursor as int] == ps.take(k as int),
                !added ==> self.nodes@ == old(self).nodes@ && self.paths@ == old(self).paths@,
                added ==> self.nodes@[cursor as int].rewrite_rule is None
                    && self.nodes@[cursor as int].edges@.len() == 0,
            decreases pattern.len() - k,
        {
            let parsed = read_pattern(pattern[k]);
            assert(ps.take(k + 1) =~= ps.take(k as int).push(ps[k as int]));
            match self.find_edge(cursor, &parsed) {
                Some(c) => {
                    cursor = c;
                },
                None => {
                    let target = self.nodes.len();
                    let ghost t0 = self.nodes@;
                    let ghost paths0 = self.paths@;
                    let ghost pv = parsed.view();
                    self.nodes[cursor].edges.push(Edge { pattern: parsed, target });
                    self.nodes.push(Node { edges: Vec::new(), rewrite_rule: None });
                    assert(self.nodes@.len() <= usize::MAX) by {
                        assert(self.nodes@.len() == self.nodes.len());
                    }
                    proof {
                        lemma_add_child(t0, paths0, self.rules@, cursor as int, pv, self.nodes@);
                    }
                    let ghost np = paths0.push(paths0[cursor as int].push(pv));
                    self.paths = Ghost(np);
                    self.orders.push(0);
                    proof {
                        assert(rule_nodes(self.nodes@) =~= rule_nodes(t0)) by {
                            assert forall|x: int| #[trigger] rule_nodes(self.nodes@).contains(x) == rule_nodes(t0).contains(x) by {
                                if 0 <= x < t0.len() && x != cursor {
                                    assert(self.nodes@[x] == t0[x]);
                                }
                            }
                        }
                        assert forall|x: int|
                            0 <= x < self.nodes@.len() && (#[trigger] self.nodes@[x]).rewrite_rule is Some implies self.orders@[x]
                                == self.order@[np[x]] by {
                            if x != cursor {
                                assert(self.nodes@[x] == t0[x]);
                            }
                        }
                    }
                    proof {
                        added = true;
                    }
                    cursor = target;
                },
            }
            k = k + 1;
        }
        assert(ps.take(pattern.len() as int) =~= ps);
        if self.nodes[cursor].rewrite_rule.is_some() {
            return Err(VibratoError::invalid_argument("pattern", "duplicate patterns"));
        }
        let ghost rs = parse_rewrites(rewrite@);
        let mut rr: Vec<Rewrite> = Vec::new();
        let mut i: usize = 0;
        while i < rewrite.len()
            invariant
                i <= rewrite.len(),
                rs == parse_rewrites(rewrite@),
                references_fit(rewrite@),
                rr@.len() == i,
                rewrite_view(rr@) == rs.take(i as int),
            decreases rewrite.len() - i,
        {
            assert(ref_digits(rewrite@[i as int]@) matches Some(d) ==> digits_value(d, 10) <= usize::MAX);
            let e = read_rewrite(rewrite[i]);
            let ghost old_rr = rr@;
            assert(e.view() == rs[i as int]);
            rr.push(e);
            assert(rr@[i as int] == e);
            assert forall|x: int| 0 <= x < i + 1 implies rewrite_view(rr@)[x] == rs.take(i + 1)[x] by {
                if x < i {
                    assert(rewrite_view(old_rr)[x] == rs.take(i as int)[x]);
                }
            }
            assert(rewrite_view(rr@) =~= rs.take(i + 1));
            i = i + 1;
        }
        assert(rewrite_view(rr@) =~= rs);
        let rule_ok = references_in(&rr, pattern.len());
        let ghost t0 = self.nodes@;
        self.nodes[cursor].rewrite_rule = Some(rr);
        proof {
            lemma_set_rule(t0, self.paths@, self.rules@, cursor as int, self.nodes@);
            assert(rule_nodes(self.nodes@) =~= rule_nodes(t0).insert(cursor as int)) by {
                assert forall|x: int| #[trigger] rule_nodes(self.nodes@).contains(x) == rule_nodes(t0).insert(cursor as int).contains(x) by {
                    if 0 <= x < t0.len() && x != cursor {
                        assert(self.nodes@[x] == t0[x]);
                    }
                }
            }
            lemma_count_bound(self.nodes@);
        }
        let place = self.count;
        self.orders.set(cursor, place);
        self.count = self.count + 1;
        let ghost no = self.order@.insert(ps, place as nat);
        proof {
            assert forall|x: int|
                0 <= x < self.nodes@.len() && (#[trigger] self.nodes@[x]).rewrite_rule is Some implies self.orders@[x]
                    == no[self.paths@[x]] by {
                if x != cursor {
                    assert(self.nodes@[x] == t0[x]);
                    assert(self.paths@[x] != self.paths@[cursor as int]);
                }
            }
        }
        self.order = Ghost(no);
        let ghost nr = self.rules@.insert(ps, rs);
        proof {
            assert(references_within(nr) == (references_within(self.rules@) && rule_ok)) by {
                if references_within(nr) {
                    assert forall|p: Seq<PatternSpec>, k: int|
                        #![trigger self.rules@[p][k]]
                        self.rules@.contains_key(p) && 0 <= k < self.rules@[p].len() implies (
                        self.rules@[p][k] matches RewriteSpec::Reference(i) ==> 1 <= i <= p.len()) by {
                        assert(p != ps);
                        assert(nr[p][k] == self.rules@[p][k]);
                    }
                    assert forall|k: int| 0 <= k < rs.len() implies (#[trigger] rs[k] matches RewriteSpec::Reference(
                        i,
                    ) ==> 1 <= i <= pattern@.len()) by {
                        assert(nr[ps][k] == rs[k]);
                    }
                }
                if references_within(self.rules@) && rule_ok {
                    assert forall|p: Seq<PatternSpec>, k: int|
                        #![trigger nr[p][k]]
                        nr.contains_key(p) && 0 <= k < nr[p].len() implies (nr[p][k] matches RewriteSpec::Reference(
                            i,
                        ) ==> 1 <= i <= p.len()) by {
                        if p != ps {
                            assert(nr[p][k] == self.rules@[p][k]);
                        } else {
                            assert(nr[p][k] == rs[k]);
                        }
                    }
                }
            }
        }
        self.rules = Ghost(nr);
        self.refs_ok = self.refs_ok && rule_ok;
        Ok(())
    }
}

// ---------------------------------------------------------------------
// Rewriting
// ---------------------------------------------------------------------

/// Rewriter of feature lists by the rules of a [`FeatureRewriterBuilder`].
pub struct FeatureRewriter {
    nodes: Vec<Node>,
    refs_ok: bool,
    orders: Vec<usize>,
    paths: Ghost<Seq<Seq<PatternSpec>>>,
    rules: Ghost<Map<Seq<PatternSpec>, Seq<RewriteSpec>>>,
    order: Ghost<Map<Seq<PatternSpec>, nat>>,
    count: Ghost<nat>,
}

impl FeatureRewriter {
    /// The rewriter's trie is well formed.
    pub closed spec fn wf(&self) -> bool {
        &&& trie_wf(self.nodes@, self.paths@, self.rules@)
        &&& self.refs_ok == references_within(self.rules@)
        &&& orders_ok(self.nodes@, self.paths@, self.rules@, self.orders@, self.order@, self.count@)
    }

    /// The place of each rule in the order in which the rules were added, from 0.
    pub closed spec fn order(&self) -> Map<Seq<PatternSpec>, nat> {
        self.order@
    }

    /// Whether every reference of every rule points at a feature that the rule's
    /// pattern has.
    pub fn references_ok(&self) -> (r: bool)
        requires
            self.wf(),
        ensures
            r == references_within(self.rules()),
    {
        self.refs_ok
    }

    /// The rules: the rewrite of each pattern.
    pub closed spec fn rules(&self) -> Map<Seq<PatternSpec>, Seq<RewriteSpec>> {
        self.rules@
    }

    /// The features that [`FeatureRewriter::rewrite`] returns for `fs`: those that the
    /// earliest added rule whose pattern accepts them gives.
    pub closed spec fn rewritten(&self, fs: Seq<Seq<char>>) -> Option<Seq<Seq<char>>> {
        match best(self.nodes@, self.orders@, fs, 0, 0, 0) {
            Some(m) => Some(apply_rewrite(rule_of(self.nodes@[m])->0, fs)),
            None => None,
        }
    }

    /// Takes the rules of a builder.
    pub fn from(builder: FeatureRewriterBuilder) -> (r: Self)
        requires
            builder.wf(),
        ensures
            r.wf(),
            r.rules() == builder.rules(),
            r.order() == builder.order(),
            forall|fs: Seq<Seq<char>>| #[trigger] r.rewritten(fs) == builder.rewritten(fs),
    {
        Self {
            nodes: builder.nodes,
            refs_ok: builder.refs_ok,
            orders: builder.orders,
            paths: builder.paths,
            rules: builder.rules,
            order: builder.order,
            count: Ghost(builder.count as nat),
        }
    }

    /// The node that [`FeatureRewriter::rewritten`] takes below node `n` at depth
    /// `d`: of the matching rules there, the one added first.
    fn best_node(&self, features: &[&str], n: usize, d: usize) -> (r: Option<usize>)
        requires
            self.wf(),
            n < self.nodes@.len(),
            d <= features.len(),
        ensures
            r matches Some(m) ==> best(self.nodes@, self.orders@, texts(features@), n as int, d as int, 0)
                == Some(m as int),
            r is None ==> best(self.nodes@, self.orders@, texts(features@), n as int, d as int, 0) is None,
            r matches Some(m) ==> m < self.nodes@.len(),
        decreases features.len() - d,
    {
        let ghost t = self.nodes@;
        let ghost ord = self.orders@;
        let ghost fs = texts(features@);
        if d >= features.len() {
            return if self.nodes[n].rewrite_rule.is_some() {
                Some(n)
            } else {
                None
            };
        }
        let mut acc: Option<usize> = None;
        let mut j: usize = 0;
        while j < self.nodes[n].edges.len()
            invariant
                self.wf(),
                t == self.nodes@,
                ord == self.orders@,
                ord.len() == t.len(),
                fs == texts(features@),
                n < t.len(),
                d < features.len(),
                j <= t[n as int].edges@.len(),
                acc matches Some(x) ==> x < t.len(),
                best(t, ord, fs, n as int, d as int, 0) == earlier(
                    ord,
                    match acc {
                        Some(x) => Some(x as int),
                        None => None,
                    },
                    best(t, ord, fs, n as int, d as int, j as int),
                ),
            decreases t[n as int].edges@.len() - j,
        {
            let e = &self.nodes[n].edges[j];
            assert(e == t[n as int].edges@[j as int]);
            assert(fs[d as int] == features@[d as int]@);
            let ghost acc_v = match acc {
                Some(x) => Some(x as int),
                None => None::<int>,
            };
            let sub = if e.pattern.accepts(features[d]) {
                self.best_node(features, e.target, d + 1)
            } else {
                None
            };
            let ghost sub_v = match sub {
                Some(x) => Some(x as int),
                None => None::<int>,
            };
            proof {
                lemma_earlier_assoc(ord, acc_v, sub_v, best(t, ord, fs, n as int, d as int, j + 1));
            }
            acc = match (acc, sub) {
                (None, _) => sub,
                (_, None) => acc,
                (Some(x), Some(y)) => if self.orders[x] <= self.orders[y] {
                    acc
                } else {
                    sub
                },
            };
            j = j + 1;
        }
        acc
    }

    /// Returns the features that the rules rewrite `features` to: `None` when no
    /// rule's pattern accepts them; otherwise the rewrite of the rule added first
    /// among those whose patterns accept them. A reference `$n` gives the `n`-th
    /// input feature.
    pub fn rewrite(&self, features: &[&str]) -> (r: Option<Vec<String>>)
        requires
            self.wf(),
            references_within(self.rules()),
        ensures
            r is Some <==> exists|p: Seq<PatternSpec>|
                #[trigger] self.rules().contains_key(p) && accepts_all(p, texts(features@)),
            r matches Some(out) ==> exists|p: Seq<PatternSpec>|
                #[trigger] self.rules().contains_key(p) && accepts_all(p, texts(features@))
                    && out.deep_view() == apply_rewrite(self.rules()[p], texts(features@))
                    && forall|q: Seq<PatternSpec>|
                    #[trigger] self.rules().contains_key(q) && accepts_all(q, texts(features@))
                        ==> self.order()[p] <= self.order()[q],
            r matches Some(out) ==> self.rewritten(texts(features@)) == Some(out.deep_view()),
            r is None ==> self.rewritten(texts(features@)) is None,
    {
        let ghost t = self.nodes@;
        let ghost ord = self.orders@;
        let ghost fs = texts(features@);
        let ghost paths = self.paths@;
        let ghost rules = self.rules@;
        let ghost order = self.order@;
        proof {
            lemma_best_sound(t, ord, paths, rules, fs, 0, 0, 0);
            assert forall|p: Seq<PatternSpec>|
                #[trigger] rules.contains_key(p) && accepts_all(p, fs) implies best(t, ord, fs, 0, 0, 0) matches Some(b)
                    && 0 <= b < t.len() && ord[b] <= order[p] by {
                let m = choose|m: int| 0 <= m < t.len() && #[trigger] paths[m] == p;
                assert(p.take(0) =~= paths[0]);
                lemma_best_min(t, ord, paths, rules, fs, 0, 0, 0, m);
            }
        }
        match self.best_node(features, 0, 0) {
            None => None,
            Some(m) => {
                let ghost p = paths[m as int];
                assert(accepts_all(p, fs));
                assert(ord[m as int] == order[p]);
                match &self.nodes[m].rewrite_rule {
                    None => None,
                    Some(rule) => {
                        let ghost rv = rewrite_view(rule@);
                        assert(rv == rules[p]);
                        let mut out: Vec<String> = Vec::new();
                        let mut k: usize = 0;
                        while k < rule.len()
                            invariant
                                k <= rule@.len(),
                                rv == rewrite_view(rule@),
                                rv == rules[p],
                                rules.contains_key(p),
                                references_within(rules),
                                p.len() == features@.len(),
                                fs == texts(features@),
                                out@.len() == k,
                                out.deep_view() == apply_rewrite(rv, fs).take(k as int),
                            decreases rule@.len() - k,
                        {
                            let ghost old_out = out.deep_view();
                            match &rule[k] {
                                Rewrite::Reference(i) => {
                                    assert(rv[k as int] == RewriteSpec::Reference(*i as int));
                                    assert(1 <= *i <= features.len()) by {
                                        assert(rules[p][k as int] == rv[k as int]);
                                    }
                                    out.push(String::from_str(features[*i - 1]));
                                },
                                Rewrite::Text(s) => {
                                    out.push(s.clone());
                                },
                            }
                            assert(out.deep_view() =~= apply_rewrite(rv, fs).take(k + 1)) by {
                                assert(out.deep_view() =~= old_out.push(out@[k as int]@));
                            }
                            k = k + 1;
                        }
                        assert(apply_rewrite(rv, fs).take(rule@.len() as int) =~= apply_rewrite(rv, fs));
                        Some(out)
                    },
                }
            },
        }
    }
}

// ---------------------------------------------------------------------
// Laws
// ---------------------------------------------------------------------

/// When the pattern of exactly one rule accepts the features, the rewrite is that
/// rule's.
pub proof fn lemma_single_match_decides(r: &FeatureRewriter, fs: Seq<Seq<char>>, p: Seq<PatternSpec>)
    requires
        r.wf(),
        r.rules().contains_key(p),
        accepts_all(p, fs),
        forall|q: Seq<PatternSpec>| #[trigger] r.rules().contains_key(q) && accepts_all(q, fs) ==> q == p,
    ensures
        r.rewritten(fs) == Some(apply_rewrite(r.rules()[p], fs)),
{
    let t = r.nodes@;
    let ord = r.orders@;
    let paths = r.paths@;
    let rules = r.rules@;
    let m = choose|m: int| 0 <= m < t.len() && #[trigger] paths[m] == p;
    assert(p.take(0) =~= paths[0]);
    lemma_best_min(t, ord, paths, rules, fs, 0, 0, 0, m);
    lemma_best_sound(t, ord, paths, rules, fs, 0, 0, 0);
    let f = best(t, ord, fs, 0, 0, 0)->0;
    assert(paths[f].take(0) =~= paths[0]);
    assert(accepts_all(paths[f], fs));
    assert(rules.contains_key(paths[f]));
}

} // verus!
