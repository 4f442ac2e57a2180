//! Process specifications and the fingerprints derived from them.
//!
//! A fingerprint is the pool's sole reuse criterion: once one exists, the pool
//! never inspects argv or environment again. It is derived deterministically
//! from everything that influences a worker's behaviour — the argument vector,
//! the environment, and the content digests of the required input files — so
//! equal specifications always map to equal fingerprints, and specifications
//! that differ in any of those parts map to different fingerprints.

use vstd::prelude::*;
use vstd::relations::sorted_by;
use vstd::relations::total_ordering;
use vstd::seq_lib::lemma_sorted_unique;

verus! {

/// The mathematical content of a process specification: the data a
/// fingerprint must match on before the pool may reuse a running server.
#[verifier::ext_equal]
pub ghost struct SpecContent {
    /// The ordered argument vector.
    pub argv: Seq<Seq<char>>,
    /// Environment variable names, position-paired with `env_values`.
    pub env_names: Seq<Seq<char>>,
    /// Environment variable values, position-paired with `env_names`.
    pub env_values: Seq<Seq<char>>,
    /// Content digests of the input files the worker needs materialized.
    pub input_digests: Seq<u64>,
}

/// Lexicographic order on character sequences, by unicode scalar value.
pub open spec fn lex_le(a: Seq<char>, b: Seq<char>) -> bool
    decreases a.len(),
{
    if a.len() == 0 {
        true
    } else if b.len() == 0 {
        false
    } else if a[0] == b[0] {
        lex_le(a.drop_first(), b.drop_first())
    } else {
        (a[0] as int) < (b[0] as int)
    }
}

/// The order is reflexive.
pub proof fn lemma_lex_le_reflexive(a: Seq<char>)
    ensures
        lex_le(a, a),
    decreases a.len(),
{
    if a.len() > 0 {
        lemma_lex_le_reflexive(a.drop_first());
    }
}

/// The order is total: one direction always holds.
pub proof fn lemma_lex_le_total(a: Seq<char>, b: Seq<char>)
    ensures
        lex_le(a, b) || lex_le(b, a),
    decreases a.len(),
{
    if a.len() > 0 && b.len() > 0 {
        if a[0] == b[0] {
            lemma_lex_le_total(a.drop_first(), b.drop_first());
        } else {
            assert((a[0] as int) != (b[0] as int));
        }
    }
}

/// The order is antisymmetric: sequences below each other are equal.
pub proof fn lemma_lex_le_antisymmetric(a: Seq<char>, b: Seq<char>)
    requires
        lex_le(a, b),
        lex_le(b, a),
    ensures
        a == b,
    decreases a.len(),
{
    if a.len() == 0 {
        assert(b.len() == 0);
        assert(a =~= b);
    } else {
        assert(b.len() > 0);
        if a[0] != b[0] {
            assert((a[0] as int) != (b[0] as int));
        }
        assert(a[0] == b[0]);
        lemma_lex_le_antisymmetric(a.drop_first(), b.drop_first());
        assert(a.drop_first().len() == b.drop_first().len());
        assert(a.len() == b.len());
        assert forall|i: int| 0 <= i < a.len() implies a[i] == b[i] by {
            if i > 0 {
                assert(a[i] == a.drop_first()[i - 1]);
                assert(b[i] == b.drop_first()[i - 1]);
            }
        }
        assert(a =~= b);
    }
}

/// The order is transitive.
pub proof fn lemma_lex_le_transitive(a: Seq<char>, b: Seq<char>, c: Seq<char>)
    requires
        lex_le(a, b),
        lex_le(b, c),
    ensures
        lex_le(a, c),
    decreases a.len(),
{
    if a.len() > 0 && b.len() > 0 && c.len() > 0 && a[0] == b[0] && b[0] == c[0] {
        lemma_lex_le_transitive(a.drop_first(), b.drop_first(), c.drop_first());
    }
}

/// Shared prefixes do not decide the order: it is settled past them.
pub proof fn lemma_lex_le_skip(a: Seq<char>, b: Seq<char>, i: int)
    requires
        0 <= i <= a.len(),
        i <= b.len(),
        forall|j: int| 0 <= j < i ==> a[j] == b[j],
    ensures
        lex_le(a, b) == lex_le(a.skip(i), b.skip(i)),
    decreases i,
{
    if i > 0 {
        assert(a[0] == b[0]);
        assert(forall|j: int| 0 <= j < i - 1 ==> a.drop_first()[j] == b.drop_first()[j]);
        lemma_lex_le_skip(a.drop_first(), b.drop_first(), i - 1);
        assert(a.skip(i) =~= a.drop_first().skip(i - 1));
        assert(b.skip(i) =~= b.drop_first().skip(i - 1));
    } else {
        assert(a.skip(0) =~= a);
        assert(b.skip(0) =~= b);
    }
}

/// Decides the lexicographic order on two strings.
fn str_le(a: &str, b: &str) -> (r: bool)
    ensures
        r == lex_le(a@, b@),
{
    let alen = a.unicode_len();
    let blen = b.unicode_len();
    let mut i: usize = 0;
    while i < alen && i < blen
        invariant
            0 <= i <= alen,
            i <= blen,
            alen == a@.len(),
            blen == b@.len(),
            forall|j: int| 0 <= j < i ==> a@[j] == b@[j],
        decreases alen - i,
    {
        let ca = a.get_char(i);
        let cb = b.get_char(i);
        if ca != cb {
            proof {
                lemma_lex_le_skip(a@, b@, i as int);
                assert(a@.skip(i as int)[0] == a@[i as int]);
                assert(b@.skip(i as int)[0] == b@[i as int]);
            }
            return (ca as u32) < (cb as u32);
        }
        i += 1;
    }
    proof {
        lemma_lex_le_skip(a@, b@, i as int);
        if i == alen {
            assert(a@.skip(i as int) =~= Seq::<char>::empty());
        } else {
            assert(b@.skip(i as int) =~= Seq::<char>::empty());
            assert(a@.skip(i as int).len() > 0);
        }
    }
    i == alen
}

/// The environment of a specification as one sequence of bindings, each a
/// name paired with its value.
pub open spec fn env_bindings(c: SpecContent) -> Seq<(Seq<char>, Seq<char>)> {
    Seq::new(c.env_names.len(), |i: int| (c.env_names[i], c.env_values[i]))
}

/// The order environment bindings are canonicalized by: by name, then by
/// value.
pub open spec fn binding_le(a: (Seq<char>, Seq<char>), b: (Seq<char>, Seq<char>)) -> bool {
    if a.0 == b.0 {
        lex_le(a.1, b.1)
    } else {
        lex_le(a.0, b.0)
    }
}

/// The binding order as a relation value.
pub open spec fn binding_order() -> spec_fn((Seq<char>, Seq<char>), (Seq<char>, Seq<char>)) -> bool {
    |a: (Seq<char>, Seq<char>), b: (Seq<char>, Seq<char>)| binding_le(a, b)
}

/// The order input digests are canonicalized by.
pub open spec fn digest_order() -> spec_fn(u64, u64) -> bool {
    |a: u64, b: u64| a <= b
}

/// The binding order is total.
pub proof fn lemma_binding_le_total(a: (Seq<char>, Seq<char>), b: (Seq<char>, Seq<char>))
    ensures
        binding_le(a, b) || binding_le(b, a),
{
    if a.0 == b.0 {
        lemma_lex_le_total(a.1, b.1);
    } else {
        lemma_lex_le_total(a.0, b.0);
    }
}

/// The binding order is antisymmetric.
pub proof fn lemma_binding_le_antisymmetric(a: (Seq<char>, Seq<char>), b: (Seq<char>, Seq<char>))
    requires
        binding_le(a, b),
        binding_le(b, a),
    ensures
        a == b,
{
    if a.0 == b.0 {
        lemma_lex_le_antisymmetric(a.1, b.1);
    } else {
        lemma_lex_le_antisymmetric(a.0, b.0);
    }
}

/// The binding order is transitive.
pub proof fn lemma_binding_le_transitive(
    a: (Seq<char>, Seq<char>),
    b: (Seq<char>, Seq<char>),
    c: (Seq<char>, Seq<char>),
)
    requires
        binding_le(a, b),
        binding_le(b, c),
    ensures
        binding_le(a, c),
{
    if a.0 == b.0 && b.0 == c.0 {
        lemma_lex_le_transitive(a.1, b.1, c.1);
    } else if a.0 != b.0 && b.0 != c.0 {
        lemma_lex_le_transitive(a.0, b.0, c.0);
        if a.0 == c.0 {
            lemma_lex_le_antisymmetric(a.0, b.0);
        }
    }
}

/// The binding order is a total ordering, so sorted binding sequences with
/// the same contents are identical.
pub proof fn lemma_binding_order_is_total_ordering()
    ensures
        total_ordering(binding_order()),
{
    let ord = binding_order();
    assert forall|x: (Seq<char>, Seq<char>)| #[trigger] ord(x, x) by {
        lemma_lex_le_reflexive(x.1);
    }
    assert forall|x: (Seq<char>, Seq<char>), y: (Seq<char>, Seq<char>)|
        #[trigger] ord(x, y) && #[trigger] ord(y, x) implies x == y by {
        lemma_binding_le_antisymmetric(x, y);
    }
    assert forall|x: (Seq<char>, Seq<char>), y: (Seq<char>, Seq<char>), z: (Seq<char>, Seq<char>)|
        #[trigger] ord(x, y) && #[trigger] ord(y, z) implies ord(x, z) by {
        lemma_binding_le_transitive(x, y, z);
    }
    assert forall|x: (Seq<char>, Seq<char>), y: (Seq<char>, Seq<char>)|
        #[trigger] ord(x, y) || #[trigger] ord(y, x) by {
        lemma_binding_le_total(x, y);
    }
}

/// The digest order is a total ordering.
pub proof fn lemma_digest_order_is_total_ordering()
    ensures
        total_ordering(digest_order()),
{
}

/// Inserting an element at the position found for it keeps a sequence
/// sorted by the binding order.
proof fn lemma_binding_insert_sorted(
    s: Seq<(Seq<char>, Seq<char>)>,
    k: int,
    p: (Seq<char>, Seq<char>),
)
    requires
        sorted_by(s, binding_order()),
        0 <= k <= s.len(),
        forall|j: int| 0 <= j < k ==> !binding_le(p, #[trigger] s[j]),
        k < s.len() ==> binding_le(p, s[k]),
    ensures
        sorted_by(s.insert(k, p), binding_order()),
{
    let ord = binding_order();
    let t = s.insert(k, p);
    assert forall|i: int, j: int| 0 <= i < j < t.len() implies #[trigger] ord(t[i], t[j]) by {
        if i < k {
            assert(t[i] == s[i]);
            lemma_binding_le_total(p, s[i]);
        }
        if j < k {
            assert(t[j] == s[j]);
        }
        if i > k {
            assert(t[i] == s[i - 1]);
        }
        if j > k {
            assert(t[j] == s[j - 1]);
        }
        if i == k && j > k {
            assert(binding_le(p, s[k]));
            if j - 1 > k {
                assert(ord(s[k], s[j - 1]));
                lemma_binding_le_transitive(p, s[k], s[j - 1]);
            }
        }
    }
}

/// Inserting a digest at the position found for it keeps the digests
/// sorted.
proof fn lemma_digest_insert_sorted(s: Seq<u64>, k: int, d: u64)
    requires
        sorted_by(s, digest_order()),
        0 <= k <= s.len(),
        forall|j: int| 0 <= j < k ==> #[trigger] s[j] < d,
        k < s.len() ==> d <= s[k],
    ensures
        sorted_by(s.insert(k, d), digest_order()),
{
    let ord = digest_order();
    let t = s.insert(k, d);
    assert forall|i: int, j: int| 0 <= i < j < t.len() implies #[trigger] ord(t[i], t[j]) by {
        if i < k {
            assert(t[i] == s[i]);
        }
        if j < k {
            assert(t[j] == s[j]);
        }
        if i > k {
            assert(t[i] == s[i - 1]);
        }
        if j > k {
            assert(t[j] == s[j - 1]);
        }
        if i == k && j > k && j - 1 > k {
            assert(ord(s[k], s[j - 1]));
        }
    }
}

/// Canonical content: well-formed specifications keep their environment
/// bindings and their digest list in one canonical order, so two of them
/// that carry the same argv, the same bindings and the same digests — in
/// whatever order those were added — have equal content, and therefore
/// matching fingerprints.
pub proof fn lemma_content_canonical(c1: SpecContent, c2: SpecContent)
    requires
        c1.env_names.len() == c1.env_values.len(),
        c2.env_names.len() == c2.env_values.len(),
        sorted_by(env_bindings(c1), binding_order()),
        sorted_by(env_bindings(c2), binding_order()),
        sorted_by(c1.input_digests, digest_order()),
        sorted_by(c2.input_digests, digest_order()),
        c1.argv == c2.argv,
        env_bindings(c1).to_multiset() == env_bindings(c2).to_multiset(),
        c1.input_digests.to_multiset() == c2.input_digests.to_multiset(),
    ensures
        c1 == c2,
{
    lemma_binding_order_is_total_ordering();
    lemma_digest_order_is_total_ordering();
    lemma_sorted_unique(env_bindings(c1), env_bindings(c2), binding_order());
    lemma_sorted_unique(c1.input_digests, c2.input_digests, digest_order());
    assert(env_bindings(c1).len() == env_bindings(c2).len());
    assert forall|i: int| 0 <= i < c1.env_names.len() implies c1.env_names[i] == c2.env_names[i]
        && c1.env_values[i] == c2.env_values[i] by {
        assert(env_bindings(c1)[i] == env_bindings(c2)[i]);
    }
    assert(c1.env_names =~= c2.env_names);
    assert(c1.env_values =~= c2.env_values);
    assert(c1.input_digests =~= c2.input_digests);
    assert(c1 =~~= c2);
}

/// A caller's immutable description of the worker process it needs: argv,
/// environment, and the content digests of its required input files.
///
/// The argument vector is ordered, as handed to the process. The
/// environment is a mapping and the input digests are a set: both are kept
/// in one canonical order by construction, so specifications listing the
/// same bindings or digests in different orders are the same specification
/// and get matching fingerprints.
pub struct ProcessSpec {
    argv: Vec<String>,
    env_names: Vec<String>,
    env_values: Vec<String>,
    input_digests: Vec<u64>,
}

impl View for ProcessSpec {
    type V = SpecContent;

    closed spec fn view(&self) -> SpecContent {
        SpecContent {
            argv: self.argv.deep_view(),
            env_names: self.env_names.deep_view(),
            env_values: self.env_values.deep_view(),
            input_digests: self.input_digests@,
        }
    }
}

impl ProcessSpec {
    /// A well-formed specification pairs every environment name with
    /// exactly one value and keeps bindings and digests in canonical order.
    /// Construction through `new`, `push_env` and `push_input` maintains
    /// this.
    pub open spec fn wf(&self) -> bool {
        &&& self@.env_names.len() == self@.env_values.len()
        &&& sorted_by(env_bindings(self@), binding_order())
        &&& sorted_by(self@.input_digests, digest_order())
    }

    /// A specification that runs `argv` with an empty environment and no
    /// input files.
    pub fn new(argv: Vec<String>) -> (r: ProcessSpec)
        ensures
            r@.argv == argv.deep_view(),
            r@.env_names == Seq::<Seq<char>>::empty(),
            r@.env_values == Seq::<Seq<char>>::empty(),
            r@.input_digests == Seq::<u64>::empty(),
            r.wf(),
    {
        let r = ProcessSpec {
            argv,
            env_names: Vec::new(),
            env_values: Vec::new(),
            input_digests: Vec::new(),
        };
        proof {
            assert(r@.env_names =~= Seq::<Seq<char>>::empty());
            assert(r@.env_values =~= Seq::<Seq<char>>::empty());
        }
        r
    }

    /// The argument vector.
    pub fn argv(&self) -> (r: &Vec<String>)
        ensures
            r.deep_view() == self@.argv,
    {
        &self.argv
    }

    /// The environment names, position-paired with `env_values`.
    pub fn env_names(&self) -> (r: &Vec<String>)
        ensures
            r.deep_view() == self@.env_names,
    {
        &self.env_names
    }

    /// The environment values, position-paired with `env_names`.
    pub fn env_values(&self) -> (r: &Vec<String>)
        ensures
            r.deep_view() == self@.env_values,
    {
        &self.env_values
    }

    /// The content digests of the required input files.
    pub fn input_digests(&self) -> (r: &Vec<u64>)
        ensures
            r@ == self@.input_digests,
    {
        &self.input_digests
    }

    /// Where a binding belongs in the canonical environment order: the
    /// first position whose binding is not strictly before it.
    fn env_insertion_point(&self, name: &String, value: &String) -> (k: usize)
        requires
            self.wf(),
        ensures
            k <= self@.env_names.len(),
            forall|j: int| 0 <= j < k ==> !binding_le((name@, value@), #[trigger] env_bindings(self@)[j]),
            (k as int) < self@.env_names.len() ==> binding_le(
                (name@, value@),
                env_bindings(self@)[k as int],
            ),
    {
        let mut k: usize = 0;
        while k < self.env_names.len()
            invariant
                self.wf(),
                k <= self@.env_names.len(),
                forall|j: int| 0 <= j < k ==> !binding_le(
                    (name@, value@),
                    #[trigger] env_bindings(self@)[j],
                ),
            decreases self@.env_names.len() - k,
        {
            if binding_le_exec(name, value, &self.env_names[k], &self.env_values[k]) {
                proof {
                    assert(env_bindings(self@)[k as int] == (
                        self@.env_names[k as int],
                        self@.env_values[k as int],
                    ));
                }
                return k;
            }
            k += 1;
        }
        k
    }

    /// Adds one environment binding at its place in the canonical order.
    pub fn push_env(&mut self, name: String, value: String)
        requires
            old(self).wf(),
        ensures
            final(self).wf(),
            final(self)@.argv == old(self)@.argv,
            final(self)@.input_digests == old(self)@.input_digests,
            env_bindings(final(self)@).to_multiset() == env_bindings(old(self)@).to_multiset()
                .insert((name@, value@)),
    {
        let ghost oldb = env_bindings(self@);
        let ghost p = (name@, value@);
        let k = self.env_insertion_point(&name, &value);
        self.env_names.insert(k, name);
        self.env_values.insert(k, value);
        proof {
            broadcast use vstd::seq_lib::group_to_multiset_ensures;

            assert(env_bindings(self@) =~= oldb.insert(k as int, p));
            lemma_binding_insert_sorted(oldb, k as int, p);
            assert(self@.argv =~~= old(self)@.argv);
            assert(self@.input_digests =~= old(self)@.input_digests);
        }
    }

    /// Where a digest belongs in the canonical order.
    fn digest_insertion_point(&self, digest: u64) -> (k: usize)
        requires
            self.wf(),
        ensures
            k <= self@.input_digests.len(),
            forall|j: int| 0 <= j < k ==> #[trigger] self@.input_digests[j] < digest,
            (k as int) < self@.input_digests.len() ==> digest <= self@.input_digests[k as int],
    {
        let mut k: usize = 0;
        while k < self.input_digests.len()
            invariant
                k <= self@.input_digests.len(),
                forall|j: int| 0 <= j < k ==> #[trigger] self@.input_digests[j] < digest,
            decreases self@.input_digests.len() - k,
        {
            if digest <= self.input_digests[k] {
                return k;
            }
            k += 1;
        }
        k
    }

    /// Adds the content digest of one required input file at its place in
    /// the canonical order.
    pub fn push_input(&mut self, digest: u64)
        requires
            old(self).wf(),
        ensures
            final(self).wf(),
            final(self)@.argv == old(self)@.argv,
            final(self)@.env_names == old(self)@.env_names,
            final(self)@.env_values == old(self)@.env_values,
            final(self)@.input_digests.to_multiset() == old(self)@.input_digests.to_multiset()
                .insert(digest),
    {
        let ghost olds = self@.input_digests;
        let k = self.digest_insertion_point(digest);
        self.input_digests.insert(k, digest);
        proof {
            broadcast use vstd::seq_lib::group_to_multiset_ensures;

            assert(self@.input_digests =~= olds.insert(k as int, digest));
            lemma_digest_insert_sorted(olds, k as int, digest);
            assert(self@.argv =~~= old(self)@.argv);
            assert(self@.env_names =~~= old(self)@.env_names);
            assert(self@.env_values =~~= old(self)@.env_values);
            assert(env_bindings(self@) =~= env_bindings(old(self)@));
        }
    }
}

/// Decides the binding order on an executable pair of bindings.
fn binding_le_exec(name_a: &String, value_a: &String, name_b: &String, value_b: &String) -> (r:
    bool)
    ensures
        r == binding_le((name_a@, value_a@), (name_b@, value_b@)),
{
    if *name_a == *name_b {
        str_le(value_a.as_str(), value_b.as_str())
    } else {
        str_le(name_a.as_str(), name_b.as_str())
    }
}

/// The key under which the pool registers a running server.
///
/// A fingerprint carries the canonical content of the specification it was
/// computed from, so fingerprint equality is exactly equality of everything
/// that influences a worker's behaviour: maximally injective, and trivially
/// deterministic. Its fields are private; callers only compute, compare and
/// clone fingerprints.
pub struct Fingerprint {
    argv: Vec<String>,
    env_names: Vec<String>,
    env_values: Vec<String>,
    input_digests: Vec<u64>,
}

impl View for Fingerprint {
    type V = SpecContent;

    closed spec fn view(&self) -> SpecContent {
        SpecContent {
            argv: self.argv.deep_view(),
            env_names: self.env_names.deep_view(),
            env_values: self.env_values.deep_view(),
            input_digests: self.input_digests@,
        }
    }
}

impl Clone for Fingerprint {
    /// Cloning keeps the fingerprint's content.
    fn clone(&self) -> (r: Self)
        ensures
            r@ == self@,
    {
        let r = Fingerprint {
            argv: self.argv.clone(),
            env_names: self.env_names.clone(),
            env_values: self.env_values.clone(),
            input_digests: self.input_digests.clone(),
        };
        proof {
            assert(r@ =~~= self@);
        }
        r
    }
}

impl Fingerprint {
    /// Derives the fingerprint of a specification.
    ///
    /// Pure and total: the result is exactly the specification's content, so
    /// two specifications get equal fingerprints if and only if their argv,
    /// environment and input digests all agree.
    pub fn compute(spec: &ProcessSpec) -> (r: Fingerprint)
        ensures
            r@ == spec@,
    {
        let r = Fingerprint {
            argv: spec.argv.clone(),
            env_names: spec.env_names.clone(),
            env_values: spec.env_values.clone(),
            input_digests: spec.input_digests.clone(),
        };
        proof {
            assert(r@ =~~= spec@);
        }
        r
    }
}

/// Compares two vectors of strings by content.
fn string_vec_eq(a: &Vec<String>, b: &Vec<String>) -> (r: bool)
    ensures
        r == (a.deep_view() == b.deep_view()),
{
    proof {
        assert(a.deep_view().len() == a@.len());
        assert(b.deep_view().len() == b@.len());
    }
    if a.len() != b.len() {
        return false;
    }
    let mut i: usize = 0;
    while i < a.len()
        invariant
            0 <= i <= a@.len(),
            a@.len() == b@.len(),
            forall|j: int| 0 <= j < i ==> a.deep_view()[j] == b.deep_view()[j],
        decreases a@.len() - i,
    {
        if !(a[i] == b[i]) {
            proof {
                assert(a.deep_view()[i as int] == a@[i as int]@);
                assert(b.deep_view()[i as int] == b@[i as int]@);
            }
            return false;
        }
        i += 1;
    }
    proof {
        assert(a.deep_view() =~= b.deep_view());
    }
    true
}

/// Compares two vectors of digests by content.
fn digest_vec_eq(a: &Vec<u64>, b: &Vec<u64>) -> (r: bool)
    ensures
        r == (a@ == b@),
{
    if a.len() != b.len() {
        return false;
    }
    let mut i: usize = 0;
    while i < a.len()
        invariant
            0 <= i <= a@.len(),
            a@.len() == b@.len(),
            forall|j: int| 0 <= j < i ==> a@[j] == b@[j],
        decreases a@.len() - i,
    {
        if a[i] != b[i] {
            return false;
        }
        i += 1;
    }
    proof {
        assert(a@ =~= b@);
    }
    true
}

impl Fingerprint {
    /// Decides fingerprint equality: true exactly when the two fingerprints
    /// carry the same specification content.
    pub fn matches(&self, other: &Fingerprint) -> (r: bool)
        ensures
            r == (self@ == other@),
    {
        let r = string_vec_eq(&self.argv, &other.argv)
            && string_vec_eq(&self.env_names, &other.env_names)
            && string_vec_eq(&self.env_values, &other.env_values)
            && digest_vec_eq(&self.input_digests, &other.input_digests);
        proof {
            if r {
                assert(self@ =~~= other@);
            }
        }
        r
    }
}


} // verus!
