use std::collections::{BTreeMap, HashMap};
use std::time::SystemTime;

use vstd::prelude::*;
use vstd::std_specs::btree::{increasing_seq, spec_keys_iter};
use vstd::std_specs::cmp::OrdSpec;
use vstd::std_specs::iter::IteratorSpec;

use quantom_value::QuantPerm;

use crate::graph::manifold::{
    arc_delta, lemma_arc_delta_laws, lemma_sigma_after_net_work, manifold_activations,
    manifold_arc_delta, manifold_dimension, manifold_retained_mass, manifold_structural_value,
    read_activations, read_dimension, read_retained_mass, read_structural_value, retain_mass,
    run_transition, sat_mul, sat_sub, saturating_mul_u128, seed_view, transition_outcome,
    Heritage, ManifoldState, Retain, TransitionReceipt,
};
use crate::graph::scale::Scale;
use crate::graph::slotmap::sat_add;

verus! {

broadcast use {
    vstd::std_specs::hash::group_hash_axioms,
    vstd::std_specs::btree::group_btree_axioms,
    vstd::laws_cmp::group_laws_cmp,
    vstd::seq_lib::group_seq_properties,
    vstd::set::group_set_axioms,
    vstd::string::group_string_axioms,
};

/// Calls `String::push`: the characters of `s` gain `c` at the end.
#[verifier::external_body]
fn push_char(s: &mut String, c: char)
    ensures
        final(s)@ == old(s)@.push(c),
{
    s.push(c);
}

/// The pieces of a path read so far: the segments closed by a `'/'`, and the
/// segment still open.
pub open spec fn split_state(s: Seq<char>) -> (Seq<Seq<char>>, Seq<char>)
    decreases s.len(),
{
    if s.len() == 0 {
        (Seq::empty(), Seq::empty())
    } else {
        let (done, cur) = split_state(s.drop_last());
        if s.last() == '/' {
            (done.push(cur), Seq::empty())
        } else {
            (done, cur.push(s.last()))
        }
    }
}

/// The path split at every `'/'` (an empty path is one empty segment).
pub open spec fn segments(s: Seq<char>) -> Seq<Seq<char>> {
    split_state(s).0.push(split_state(s).1)
}

/// The segments that are not empty, in order.
pub open spec fn keep_nonempty(segs: Seq<Seq<char>>) -> Seq<Seq<char>>
    decreases segs.len(),
{
    if segs.len() == 0 {
        Seq::empty()
    } else if segs.last().len() > 0 {
        keep_nonempty(segs.drop_last()).push(segs.last())
    } else {
        keep_nonempty(segs.drop_last())
    }
}

/// The commands of a path: its non-empty segments.
pub open spec fn commands_of(s: Seq<char>) -> Seq<Seq<char>> {
    keep_nonempty(segments(s))
}

/// Whether a segment is non-empty.
pub open spec fn nonempty_segment(x: Seq<char>) -> bool {
    x.len() > 0
}

/// Keeping the non-empty segments is filtering by non-emptiness: every
/// non-empty segment is kept, in order, however many there are.
pub proof fn lemma_keep_nonempty_is_filter(segs: Seq<Seq<char>>)
    ensures
        keep_nonempty(segs) == segs.filter(|x: Seq<char>| nonempty_segment(x)),
    decreases segs.len(),
{
    reveal(Seq::filter);
    if segs.len() > 0 {
        lemma_keep_nonempty_is_filter(segs.drop_last());
    }
}

/// A further non-empty segment adds exactly one kept segment, at the end.
pub proof fn lemma_keep_nonempty_push(segs: Seq<Seq<char>>, x: Seq<char>)
    requires
        x.len() > 0,
    ensures
        keep_nonempty(segs.push(x)) == keep_nonempty(segs).push(x),
        keep_nonempty(segs.push(x)).len() == keep_nonempty(segs).len() + 1,
{
    assert(segs.push(x).drop_last() =~= segs);
}

/// Reading characters other than `'/'` only extends the open segment.
pub proof fn lemma_split_state_plain(s: Seq<char>, x: Seq<char>)
    requires
        !x.contains('/'),
    ensures
        split_state(s + x) == (split_state(s).0, split_state(s).1 + x),
    decreases x.len(),
{
    if x.len() == 0 {
        assert(s + x =~= s);
        assert(split_state(s).1 + x =~= split_state(s).1);
    } else {
        let y = x.drop_last();
        assert(!y.contains('/')) by {
            if y.contains('/') {
                let i = choose|i: int| 0 <= i < y.len() && y[i] == '/';
                assert(x[i] == '/');
            }
        }
        lemma_split_state_plain(s, y);
        assert((s + x).drop_last() =~= s + y);
        assert((s + x).last() == x.last());
        assert(x.last() != '/') by {
            assert(x[x.len() - 1] == x.last());
        }
        assert(split_state(s).1 + y + seq![x.last()] =~= split_state(s).1 + x);
    }
}

/// Appending `'/'` and a non-empty piece without `'/'` to a path adds exactly
/// one command, that piece, after the path's own commands.
pub proof fn lemma_commands_append(s: Seq<char>, x: Seq<char>)
    requires
        x.len() > 0,
        !x.contains('/'),
    ensures
        commands_of(s.push('/') + x) == commands_of(s).push(x),
        commands_of(s.push('/') + x).len() == commands_of(s).len() + 1,
{
    lemma_split_state_plain(s.push('/'), x);
    assert(s.push('/').drop_last() =~= s);
    assert(split_state(s.push('/')) == (segments(s), Seq::<char>::empty()));
    assert(Seq::<char>::empty() + x =~= x);
    assert(segments(s.push('/') + x) == segments(s).push(x));
    lemma_keep_nonempty_push(segments(s), x);
}

/// The commands of a path are its non-empty segments, all of them, in
/// order: their number is the number of non-empty segments.
pub proof fn lemma_commands_are_nonempty_segments(s: Seq<char>)
    ensures
        commands_of(s) == segments(s).filter(|x: Seq<char>| nonempty_segment(x)),
        commands_of(s).len() == segments(s).filter(|x: Seq<char>| nonempty_segment(x)).len(),
        forall|i: int| 0 <= i < commands_of(s).len() ==> commands_of(s)[i].len() > 0,
{
    lemma_keep_nonempty_is_filter(segments(s));
    let f = |x: Seq<char>| nonempty_segment(x);
    assert forall|i: int| 0 <= i < commands_of(s).len() implies commands_of(s)[i].len() > 0 by {
        segments(s).lemma_filter_pred(f, i);
    }
}

/// After appending `'/'` and a non-empty piece without `'/'` to a path, the
/// command at the old command count is that piece, and the commands before
/// it are unchanged.
pub proof fn lemma_command_at_append(s: Seq<char>, x: Seq<char>)
    requires
        x.len() > 0,
        !x.contains('/'),
    ensures
        command_at(s.push('/') + x, commands_of(s).len() as int) == Some(x),
        command_at(s.push('/') + x, commands_of(s).len() + 1int) is None,
        forall|i: int|
            0 <= i < commands_of(s).len() ==> command_at(s.push('/') + x, i) == command_at(s, i),
{
    lemma_commands_append(s, x);
}

/// The character sequences of a list of strings.
pub open spec fn string_views(v: Seq<String>) -> Seq<Seq<char>> {
    v.map_values(|x: String| x@)
}

/// The command at `depth`, if the path has that many.
pub open spec fn command_at(s: Seq<char>, depth: int) -> Option<Seq<char>> {
    if 0 <= depth < commands_of(s).len() {
        Some(commands_of(s)[depth])
    } else {
        None
    }
}

/// Each element is smaller than every later one.
pub open spec fn strictly_increasing(s: Seq<usize>) -> bool {
    forall|i: int, j: int| 0 <= i < j < s.len() ==> s[i] < s[j]
}

/// Two strictly increasing sequences with the same elements are equal.
pub proof fn lemma_increasing_unique(a: Seq<usize>, b: Seq<usize>)
    requires
        strictly_increasing(a),
        strictly_increasing(b),
        a.to_set() == b.to_set(),
    ensures
        a == b,
    decreases a.len(),
{
    if a.len() == 0 {
        if b.len() > 0 {
            assert(b.to_set().contains(b[0]));
        }
    } else if b.len() == 0 {
        assert(a.to_set().contains(a[0]));
    } else {
        assert(a.to_set().contains(a[0]));
        assert(b.to_set().contains(b[0]));
        let i = choose|i: int| 0 <= i < b.len() && b[i] == a[0];
        let j = choose|j: int| 0 <= j < a.len() && a[j] == b[0];
        if i > 0 {
            assert(b[0] < b[i]);
        }
        if j > 0 {
            assert(a[0] < a[j]);
        }
        assert(a[0] == b[0]);
        let a1 = a.drop_first();
        let b1 = b.drop_first();
        assert forall|x: usize| a1.to_set().contains(x) <==> b1.to_set().contains(x) by {
            if a1.to_set().contains(x) {
                let k = choose|k: int| 0 <= k < a1.len() && a1[k] == x;
                assert(a[k + 1] == x);
                assert(b.to_set().contains(x));
                let m = choose|m: int| 0 <= m < b.len() && b[m] == x;
                assert(a[0] < a[k + 1]);
                if m == 0 {
                    assert(false);
                }
                assert(b1[m - 1] == x);
            }
            if b1.to_set().contains(x) {
                let k = choose|k: int| 0 <= k < b1.len() && b1[k] == x;
                assert(b[k + 1] == x);
                assert(a.to_set().contains(x));
                let m = choose|m: int| 0 <= m < a.len() && a[m] == x;
                assert(b[0] < b[k + 1]);
                if m == 0 {
                    assert(false);
                }
                assert(a1[m - 1] == x);
            }
        }
        assert(a1.to_set() =~= b1.to_set());
        lemma_increasing_unique(a1, b1);
        assert forall|k: int| 0 <= k < a.len() implies a[k] == b[k] by {
            if k > 0 {
                assert(a[k] == a1[k - 1]);
                assert(b[k] == b1[k - 1]);
            }
        }
        assert(a =~= b);
    }
}

/// One realized object as the depth lists it: position, identifier, retained value.
pub type DepthEntry = (usize, Seq<char>, Retain);

/// The masses of a list of realized objects, added in order, held at
/// `u128::MAX` once the total would overflow.
pub open spec fn mass_total(s: Seq<DepthEntry>) -> u128
    decreases s.len(),
{
    if s.len() == 0 {
        0
    } else {
        let acc = mass_total(s.drop_last());
        let m = s.last().2.mass;
        if acc + m > u128::MAX {
            u128::MAX
        } else {
            (acc + m) as u128
        }
    }
}

/// The masses of a list of realized objects, added in order, without bound.
pub open spec fn mass_sum(s: Seq<DepthEntry>) -> nat
    decreases s.len(),
{
    if s.len() == 0 {
        0
    } else {
        mass_sum(s.drop_last()) + s.last().2.mass as nat
    }
}

/// The saturating total is the plain sum of every entry's mass, held at
/// `u128::MAX`: no entry is skipped, whatever its identifier or position.
pub proof fn lemma_mass_total_is_capped_sum(s: Seq<DepthEntry>)
    ensures
        mass_total(s) == (if mass_sum(s) > u128::MAX {
            u128::MAX as nat
        } else {
            mass_sum(s)
        }),
    decreases s.len(),
{
    if s.len() > 0 {
        lemma_mass_total_is_capped_sum(s.drop_last());
    }
}

/// Adding one more entry at the end adds its mass to the total (saturating),
/// whatever the entries before it and whatever its identifier.
pub proof fn lemma_mass_total_push(s: Seq<DepthEntry>, e: DepthEntry)
    ensures
        mass_total(s.push(e)) == sat_add(mass_total(s), e.2.mass),
{
    assert(s.push(e).drop_last() =~= s);
}

/// The plain values of a list of borrowed depth entries.
pub open spec fn entry_views(s: Seq<(usize, &str, &Retain)>) -> Seq<DepthEntry> {
    s.map_values(|e: (usize, &str, &Retain)| (e.0, e.1@, *e.2))
}

/// A path of commands, the retained objects realized along it (by position)
/// and the protocol identifier labelling each position.
pub struct Depth {
    path: String,
    objects: HashMap<usize, Retain>,
    positions: BTreeMap<usize, String>,
}

impl Depth {
    /// A position is labelled exactly when it holds a retained object.
    #[verifier::type_invariant]
    spec fn positions_aligned(self) -> bool {
        self.positions@.dom() == self.objects@.dom()
    }

    /// The path as characters.
    pub closed spec fn path_chars(&self) -> Seq<char> {
        self.path@
    }

    /// Retained object per position.
    pub closed spec fn objects_map(&self) -> Map<usize, Retain> {
        self.objects@
    }

    /// Identifier per position.
    pub closed spec fn labels(&self) -> Map<usize, Seq<char>> {
        self.positions@.map_values(|s: String| s@)
    }

    /// A position that carries both an identifier and a retained object.
    pub open spec fn realized(&self, p: usize) -> bool {
        self.labels().contains_key(p) && self.objects_map().contains_key(p)
    }

    /// `s` lists every realized object exactly once, in increasing position order.
    pub open spec fn listed(&self, s: Seq<DepthEntry>) -> bool {
        &&& strictly_increasing(s.map_values(|e: DepthEntry| e.0))
        &&& forall|i: int|
            0 <= i < s.len() ==> {
                &&& self.realized(#[trigger] s[i].0)
                &&& self.labels()[s[i].0] == s[i].1
                &&& self.objects_map()[s[i].0] == s[i].2
            }
        &&& forall|p: usize| #[trigger]
            self.realized(p) ==> exists|i: int| 0 <= i < s.len() && #[trigger] s[i].0 == p
    }

    /// `p` is the greatest realized position labelled `id`.
    pub open spec fn latest(&self, p: usize, id: Seq<char>) -> bool {
        &&& self.realized(p)
        &&& self.labels()[p] == id
        &&& forall|q: usize| #[trigger]
            self.realized(q) && self.labels()[q] == id ==> q <= p
    }

    /// An empty depth along `path`.
    pub fn new(path: String) -> (d: Self)
        ensures
            d.path_chars() == path@,
            d.objects_map() == Map::<usize, Retain>::empty(),
            d.labels() == Map::<usize, Seq<char>>::empty(),
            d.labels().dom() == d.objects_map().dom(),
    {
        let d = Depth { path, objects: HashMap::new(), positions: BTreeMap::new() };
        assert(d.labels() =~= Map::<usize, Seq<char>>::empty());
        d
    }

    /// The whole path.
    pub fn path(&self) -> (r: &str)
        ensures
            r@ == self.path_chars(),
    {
        self.path.as_str()
    }

    /// Splits the path: its first segment, and its commands.
    fn scan(&self) -> (r: (String, Vec<String>))
        ensures
            r.0@ == segments(self.path@)[0],
            string_views(r.1@) == commands_of(self.path@),
    {
        let mut first: Option<String> = None;
        let mut cur = String::new();
        let mut out: Vec<String> = Vec::new();
        let ghost mut done: Seq<Seq<char>> = Seq::empty();
        assert(self.path@.take(0) =~= Seq::<char>::empty());
        for c in it: self.path.chars()
            invariant
                it.seq() == self.path@,
                (done, cur@) == split_state(self.path@.take(it.index())),
                string_views(out@) == keep_nonempty(done),
                first is None <==> done.len() == 0,
                first matches Some(f) ==> done.len() > 0 && f@ == done[0],
        {
            let ghost prefix = self.path@.take(it.index() + 1);
            assert(prefix.drop_last() =~= self.path@.take(it.index()));
            assert(prefix.last() == c);
            if c == '/' {
                let ghost prev_done = done;
                proof {
                    done = done.push(cur@);
                }
                assert(done.drop_last() =~= prev_done);
                if first.is_none() {
                    first = Some(cur.clone());
                }
                let is_empty = cur.as_str().is_empty();
                if !is_empty {
                    let ghost prev_out = string_views(out@);
                    out.push(cur);
                    assert(string_views(out@) =~= prev_out.push(done.last()));
                    assert(string_views(out@) =~= keep_nonempty(done));
                } else {
                    assert(keep_nonempty(done) == keep_nonempty(done.drop_last()));
                }
                cur = String::new();
                assert(done.drop_last() == split_state(self.path@.take(it.index())).0);
            } else {
                push_char(&mut cur, c);
            }
        }
        assert(self.path@.take(self.path@.len() as int) =~= self.path@);
        let ghost segs = done.push(cur@);
        assert(segs == segments(self.path@));
        let is_empty = cur.as_str().is_empty();
        let head = match first {
            Some(f) => f,
            None => cur.clone(),
        };
        if !is_empty {
            out.push(cur);
        }
        assert(segs.drop_last() =~= done);
        assert(string_views(out@) =~= keep_nonempty(segs));
        (head, out)
    }

    /// The first segment of the path (everything before the first `'/'`).
    pub fn command(&self) -> (r: String)
        ensures
            r@ == segments(self.path_chars())[0],
    {
        self.scan().0
    }

    /// The commands of the path: its non-empty `'/'`-separated segments.
    pub fn commands(&self) -> (r: Vec<String>)
        ensures
            string_views(r@) == commands_of(self.path_chars()),
            string_views(r@) == segments(self.path_chars()).filter(
                |x: Seq<char>| nonempty_segment(x),
            ),
    {
        proof {
            lemma_commands_are_nonempty_segments(self.path_chars());
        }
        self.scan().1
    }

    /// The command at `depth`, if any.
    pub fn at(&self, depth: usize) -> (r: Option<String>)
        ensures
            match r {
                Some(c) => command_at(self.path_chars(), depth as int) == Some(c@),
                None => command_at(self.path_chars(), depth as int) is None,
            },
    {
        let mut cmds = self.scan().1;
        if depth < cmds.len() {
            let c = cmds.swap_remove(depth);
            Some(c)
        } else {
            None
        }
    }

    /// The second command, if any.
    pub fn next(&self) -> (r: Option<String>)
        ensures
            match r {
                Some(c) => command_at(self.path_chars(), 1) == Some(c@),
                None => command_at(self.path_chars(), 1) is None,
            },
    {
        self.at(1)
    }

    /// The number of commands.
    pub fn len(&self) -> (n: usize)
        ensures
            n == commands_of(self.path_chars()).len(),
            n == segments(self.path_chars()).filter(|x: Seq<char>| nonempty_segment(x)).len(),
    {
        proof {
            lemma_commands_are_nonempty_segments(self.path_chars());
        }
        self.scan().1.len()
    }

    /// Whether the path is empty.
    pub fn is_empty(&self) -> (r: bool)
        ensures
            r == (self.path_chars().len() == 0),
    {
        self.path.as_str().is_empty()
    }

    /// The retained object at a position.
    pub fn position(&self, index: usize) -> (r: Option<&Retain>)
        ensures
            match r {
                Some(o) => self.objects_map().contains_key(index) && *o == self.objects_map()[index],
                None => !self.objects_map().contains_key(index),
            },
            r is Some <==> self.labels().contains_key(index),
    {
        proof {
            use_type_invariant(self);
        }
        self.objects.get(&index)
    }

    /// The identifier at a position.
    pub fn identifier_at(&self, position: usize) -> (r: Option<&str>)
        ensures
            match r {
                Some(s) => self.labels().contains_key(position) && s@ == self.labels()[position],
                None => !self.labels().contains_key(position),
            },
            r is Some <==> self.objects_map().contains_key(position),
    {
        proof {
            use_type_invariant(self);
        }
        match self.positions.get(&position) {
            Some(s) => Some(s.as_str()),
            None => None,
        }
    }

    /// Record one object occurrence: `identifier` labels `position`, and
    /// `value` is what was retained there.
    pub fn insert(&mut self, identifier: String, position: usize, value: Retain)
        ensures
            final(self).path_chars() == old(self).path_chars(),
            final(self).labels() == old(self).labels().insert(position, identifier@),
            final(self).objects_map() == old(self).objects_map().insert(position, value),
            final(self).labels().dom() == final(self).objects_map().dom(),
    {
        proof {
            use_type_invariant(&*self);
        }
        let ghost id = identifier@;
        let mut taken = Depth { path: String::new(), objects: HashMap::new(), positions: BTreeMap::new() };
        std::mem::swap(self, &mut taken);
        let Depth { path, mut objects, mut positions } = taken;
        positions.insert(position, identifier);
        objects.insert(position, value);
        assert(positions@.dom() =~= objects@.dom());
        *self = Depth { path, objects, positions };
        assert(self.labels() =~= old(self).labels().insert(position, id));
    }

    /// The retained object of the most recent (greatest) realized position
    /// labelled `identifier`.
    pub fn object(&self, identifier: &str) -> (r: Option<&Retain>)
        ensures
            match r {
                Some(o) => exists|p: usize| #[trigger]
                    self.latest(p, identifier@) && *o == self.objects_map()[p],
                None => forall|p: usize| #[trigger]
                    self.realized(p) ==> self.labels()[p] != identifier@,
            },
    {
        let ident: String = identifier.to_owned();
        let v = self.sorted_positions();
        let mut i = v.len();
        while i > 0
            invariant
                0 <= i <= v@.len(),
                strictly_increasing(v@),
                v@.to_set() == self.labels().dom(),
                ident@ == identifier@,
                forall|j: int| #![trigger v@[j]]
                    i <= j < v@.len() ==> !(self.realized(v@[j]) && self.labels()[v@[j]]
                        == identifier@),
            decreases i,
        {
            let p = v[i - 1];
            assert(v@.to_set().contains(p));
            let label = match self.positions.get(&p) {
                Some(l) => l,
                None => {
                    assert(false);
                    return None;
                },
            };
            if label.eq(&ident) {
                match self.objects.get(&p) {
                    Some(o) => {
                        proof {
                            assert forall|q: usize| #[trigger]
                                self.realized(q) && self.labels()[q] == identifier@ implies q
                                <= p by {
                                assert(v@.to_set().contains(q));
                                let j = choose|j: int| 0 <= j < v@.len() && v@[j] == q;
                                if j > i - 1 {
                                    assert(v@[j] == q);
                                }
                            }
                            assert(self.latest(p, identifier@));
                        }
                        return Some(o);
                    },
                    None => {},
                }
            }
            i = i - 1;
        }
        proof {
            assert forall|p: usize| #[trigger] self.realized(p) implies self.labels()[p]
                != identifier@ by {
                assert(v@.to_set().contains(p));
                let j = choose|j: int| 0 <= j < v@.len() && v@[j] == p;
                assert(v@[j] == p);
            }
        }
        None
    }

    /// Every realized object, in increasing position order.
    pub fn objects(&self) -> (r: Vec<(usize, &str, &Retain)>)
        ensures
            self.listed(entry_views(r@)),
    {
        let v = self.sorted_positions();
        let mut out: Vec<(usize, &str, &Retain)> = Vec::new();
        let n = v.len();
        let mut i: usize = 0;
        while i < n
            invariant
                n == v@.len(),
                0 <= i <= n,
                strictly_increasing(v@),
                v@.to_set() == self.labels().dom(),
                forall|a: int, b: int| 0 <= a < b < out@.len() ==> out@[a].0 < out@[b].0,
                forall|k: int| 0 <= k < out@.len() ==> #[trigger] out@[k].0 < v@[i as int] || i == n,
                forall|k: int|
                    0 <= k < out@.len() ==> {
                        &&& self.realized(#[trigger] out@[k].0)
                        &&& self.labels()[out@[k].0] == out@[k].1@
                        &&& self.objects_map()[out@[k].0] == *out@[k].2
                    },
                forall|j: int|
                    0 <= j < i && #[trigger] self.realized(v@[j]) ==> exists|k: int|
                        0 <= k < out@.len() && out@[k].0 == v@[j],
            decreases n - i,
        {
            let p = v[i];
            assert(v@.to_set().contains(p));
            let label = match self.positions.get(&p) {
                Some(l) => l,
                None => {
                    assert(false);
                    return out;
                },
            };
            let ghost old_out = out@;
            match self.objects.get(&p) {
                Some(o) => {
                    out.push((p, label.as_str(), o));
                },
                None => {},
            }
            proof {
                if i + 1 < n {
                    assert(v@[i as int] < v@[i + 1]);
                }
                assert forall|j: int|
                    0 <= j < i + 1 && #[trigger] self.realized(v@[j]) implies exists|k: int|
                        0 <= k < out@.len() && out@[k].0 == v@[j] by {
                    if j < i {
                        let k = choose|k: int| 0 <= k < old_out.len() && old_out[k].0 == v@[j];
                        assert(out@[k] == old_out[k]);
                    } else {
                        assert(out@[out@.len() - 1].0 == v@[j]);
                    }
                }
            }
            i = i + 1;
        }
        proof {
            let e = entry_views(out@);
            assert forall|p: usize| #[trigger] self.realized(p) implies exists|i: int|
                0 <= i < e.len() && #[trigger] e[i].0 == p by {
                assert(v@.to_set().contains(p));
                let j = choose|j: int| 0 <= j < v@.len() && v@[j] == p;
                assert(self.realized(v@[j]));
                let k = choose|k: int| 0 <= k < out@.len() && out@[k].0 == v@[j];
                assert(e[k].0 == p);
            }
            assert forall|k: int| 0 <= k < e.len() implies {
                &&& self.realized(#[trigger] e[k].0)
                &&& self.labels()[e[k].0] == e[k].1
                &&& self.objects_map()[e[k].0] == e[k].2
            } by {
                assert(self.realized(out@[k].0));
            }
            let ks = e.map_values(|x: DepthEntry| x.0);
            assert forall|a: int, b: int| 0 <= a < b < ks.len() implies ks[a] < ks[b] by {
                assert(out@[a].0 < out@[b].0);
            }
        }
        out
    }

    /// Two lists of every realized object in increasing position order are equal.
    pub proof fn lemma_listed_unique(&self, s1: Seq<DepthEntry>, s2: Seq<DepthEntry>)
        requires
            self.listed(s1),
            self.listed(s2),
        ensures
            s1 == s2,
    {
        let k1 = s1.map_values(|e: DepthEntry| e.0);
        let k2 = s2.map_values(|e: DepthEntry| e.0);
        assert forall|p: usize| k1.to_set().contains(p) <==> k2.to_set().contains(p) by {
            if k1.to_set().contains(p) {
                let i = choose|i: int| 0 <= i < k1.len() && k1[i] == p;
                assert(self.realized(s1[i].0));
                let j = choose|j: int| 0 <= j < s2.len() && #[trigger] s2[j].0 == p;
                assert(k2[j] == p);
            }
            if k2.to_set().contains(p) {
                let i = choose|i: int| 0 <= i < k2.len() && k2[i] == p;
                assert(self.realized(s2[i].0));
                let j = choose|j: int| 0 <= j < s1.len() && #[trigger] s1[j].0 == p;
                assert(k1[j] == p);
            }
        }
        assert(k1.to_set() =~= k2.to_set());
        lemma_increasing_unique(k1, k2);
        assert forall|i: int| 0 <= i < s1.len() implies s1[i] == s2[i] by {
            assert(k1[i] == k2[i]);
            assert(self.realized(s1[i].0));
            assert(self.realized(s2[i].0));
        }
        assert(s1 =~= s2);
    }

    /// An object recorded past every labelled position is the most recent
    /// occurrence of its identifier (so `object` finds it).
    pub proof fn lemma_insert_beyond_is_latest(
        before: &Depth,
        after: &Depth,
        id: Seq<char>,
        p: usize,
        v: Retain,
    )
        requires
            after.labels() == before.labels().insert(p, id),
            after.objects_map() == before.objects_map().insert(p, v),
            forall|q: usize| #[trigger] before.labels().contains_key(q) ==> q < p,
        ensures
            after.latest(p, id),
            after.objects_map()[p] == v,
    {
        assert forall|q: usize| #[trigger]
            after.realized(q) && after.labels()[q] == id implies q <= p by {
            if q != p {
                assert(before.labels().contains_key(q));
            }
        }
    }

    /// Recording an object past every labelled position appends it to the
    /// listing of realized objects, and adds its mass (saturating) to the
    /// listing's total, whatever identifier it carries.
    pub proof fn lemma_insert_beyond_adds_mass(
        before: &Depth,
        after: &Depth,
        id: Seq<char>,
        p: usize,
        v: Retain,
        s: Seq<DepthEntry>,
    )
        requires
            before.labels().dom() == before.objects_map().dom(),
            before.listed(s),
            after.labels() == before.labels().insert(p, id),
            after.objects_map() == before.objects_map().insert(p, v),
            forall|q: usize| #[trigger] before.labels().contains_key(q) ==> q < p,
        ensures
            after.listed(s.push((p, id, v))),
            mass_total(s.push((p, id, v))) == sat_add(mass_total(s), v.mass),
    {
        let t = s.push((p, id, v));
        let ks = t.map_values(|e: DepthEntry| e.0);
        let ks0 = s.map_values(|e: DepthEntry| e.0);
        assert forall|i: int, j: int| 0 <= i < j < ks.len() implies ks[i] < ks[j] by {
            if j < s.len() {
                assert(ks0[i] < ks0[j]);
            } else {
                assert(before.realized(s[i].0));
            }
        }
        assert forall|i: int| 0 <= i < t.len() implies {
            &&& after.realized(#[trigger] t[i].0)
            &&& after.labels()[t[i].0] == t[i].1
            &&& after.objects_map()[t[i].0] == t[i].2
        } by {
            if i < s.len() {
                assert(before.realized(s[i].0));
                assert(s[i].0 < p);
            }
        }
        assert forall|q: usize| #[trigger] after.realized(q) implies exists|i: int|
            0 <= i < t.len() && #[trigger] t[i].0 == q by {
            if q == p {
                assert(t[s.len() as int].0 == q);
            } else {
                assert(before.realized(q));
                let i = choose|i: int| 0 <= i < s.len() && #[trigger] s[i].0 == q;
                assert(t[i].0 == q);
            }
        }
        lemma_mass_total_push(s, (p, id, v));
    }

    /// The labelled positions, in increasing order.
    fn sorted_positions(&self) -> (v: Vec<usize>)
        ensures
            strictly_increasing(v@),
            v@.to_set() == self.labels().dom(),
    {
        let mut v: Vec<usize> = Vec::new();
        assert(strictly_increasing(spec_keys_iter(&self.positions).remaining().unref())) by {
            let ks = spec_keys_iter(&self.positions).remaining();
            assert(increasing_seq(ks));
            assert(vstd::laws_cmp::obeys_cmp::<&usize>());
            vstd::std_specs::btree::axiom_increasing_seq_meaning::<&usize>(ks);
            assert forall|i: int, j: int| 0 <= i < j < ks.len() implies *ks[i] < *ks[j] by {
                assert(OrdSpec::cmp_spec(&ks[i], &ks[j]) is Less);
            }
        }
        for k in it: self.positions.keys()
            invariant
                v@ == it.seq().unref().take(it.index()),
                it.seq().unref().to_set() == self.positions@.dom(),
                strictly_increasing(it.seq().unref()),
                it.index() == it.seq().len() ==> v@ == it.seq().unref(),
        {
            v.push(*k);
            assert(v@ =~= it.seq().unref().take(it.index() + 1));
        }
        v
    }

    /// The next free position: one past the greatest labelled position, or 0.
    pub fn next_position(&self) -> (p: usize)
        requires
            !self.labels().contains_key(usize::MAX),
        ensures
            self.labels().dom().is_empty() ==> p == 0,
            !self.labels().dom().is_empty() ==> {
                &&& self.labels().contains_key((p - 1) as usize)
                &&& forall|q: usize| #[trigger] self.labels().contains_key(q) ==> q < p
            },
    {
        let v = self.sorted_positions();
        if v.len() == 0 {
            assert(v@.to_set() =~= Set::<usize>::empty());
            0
        } else {
            let last = v[v.len() - 1];
            assert(v@.contains(last));
            assert(self.labels().contains_key(last));
            assert forall|q: usize| #[trigger] self.labels().contains_key(q) implies q < last + 1 by {
                assert(v@.to_set().contains(q));
                let j = choose|j: int| 0 <= j < v@.len() && v@[j] == q;
                if j < v@.len() - 1 {
                    assert(v@[j] < v@[v@.len() - 1]);
                }
            }
            last + 1
        }
    }
}


// =============================================================================
// GRAPH IDENTITIES AND RECORDS
// =============================================================================

/// Identity of an event: 32 bytes.
pub type EventId = [u8; 32];

/// Identity of a surface: 32 bytes.
pub type SurfaceId = [u8; 32];

/// Identity of an edge: 32 bytes.
pub type EdgeId = [u8; 32];

/// Geometric position of a surface.
#[derive(Debug, Clone, Copy)]
pub struct SurfaceCoordinate {
    pub dimension: u64,
    pub sigma: u128,
}

/// An event as the frame sees it: the receipt of its transition.
pub struct QtmEvent {
    pub heritage: Heritage,
    pub activation: u64,
    pub scale: Scale,
}

/// A surface of the frame graph.
#[derive(Debug, Clone)]
pub struct SurfaceNode {
    pub coordinate: [u8; 32],
    pub surface: SurfaceCoordinate,
    pub scale: Scale,
    pub structural_value: u128,
    pub total_network: u128,
    pub visits: u64,
    pub activations: Vec<u64>,
    pub events: Vec<EventId>,
    pub inbound: Vec<EdgeId>,
    pub outbound: Vec<EdgeId>,
}

/// A directed edge between two surfaces.
#[derive(Debug, Clone)]
pub struct QtmEdge {
    pub from: SurfaceId,
    pub to: SurfaceId,
    pub net_work: u128,
    pub sigma_delta: i128,
    pub dimension_delta: i128,
    pub commitment_changed: bool,
    pub coordinate_changed: bool,
}

// =============================================================================
// EVENT MAP
// =============================================================================

/// `std::time::SystemTime`, held opaque.
#[verifier::external_type_specification]
#[verifier::external_body]
pub struct ExSystemTime(SystemTime);

/// Reads the system clock (`SystemTime::now`); nothing is known of the value.
#[verifier::external_body]
fn clock_now() -> SystemTime {
    SystemTime::now()
}

/// The canonical projection of one event: its receipt, the activation it
/// happened at, its scale and when it was observed.
pub struct EventMap {
    pub heritage: Heritage,
    pub activation: u64,
    pub scale: Scale,
    pub runtime: SystemTime,
}

impl EventMap {
    /// The event of `heritage`, at the activation count its state reports.
    pub fn new(heritage: Heritage, scale: Scale, runtime: SystemTime) -> (e: Self)
        ensures
            e.heritage == heritage,
            e.activation == heritage.state.activations,
            e.scale == scale,
            e.runtime == runtime,
    {
        let activation = heritage.state.activations();
        EventMap { heritage, activation, scale, runtime }
    }

    /// The event of `heritage`, observed now.
    pub fn now(heritage: Heritage, scale: Scale) -> (e: Self)
        ensures
            e.heritage == heritage,
            e.activation == heritage.state.activations,
            e.scale == scale,
    {
        Self::new(heritage, scale, clock_now())
    }

    /// When the event was observed.
    pub fn runtime(&self) -> (r: SystemTime)
        ensures
            r == self.runtime,
    {
        self.runtime
    }

    /// The receipt.
    pub fn heritage(&self) -> (r: &Heritage)
        ensures
            *r == self.heritage,
    {
        &self.heritage
    }

    /// τ of the transition.
    pub fn tau(&self) -> (r: u128)
        ensures
            r == self.heritage.transition.tau,
    {
        self.heritage.transition.tau
    }

    /// Δ of the transition.
    pub fn delta(&self) -> (r: u128)
        ensures
            r == self.heritage.transition.delta,
    {
        self.heritage.transition.delta
    }

    /// Gross work of the transition.
    pub fn gross_work(&self) -> (r: u128)
        ensures
            r == self.heritage.transition.gross_work,
    {
        self.heritage.transition.gross_work
    }

    /// Net work of the transition.
    pub fn net_work(&self) -> (r: u128)
        ensures
            r == self.heritage.transition.net_work,
    {
        self.heritage.transition.net_work
    }

    /// The coordinate after the transition: its dimension.
    pub fn coordinate(&self) -> (r: u64)
        ensures
            r == self.heritage.state.dimension,
    {
        self.heritage.state.dimension()
    }

    /// Dimension after the transition.
    pub fn dimension(&self) -> (r: u64)
        ensures
            r == self.heritage.state.dimension,
    {
        self.heritage.state.dimension()
    }

    /// Structural value after the transition.
    pub fn structural_value(&self) -> (r: u128)
        ensures
            r == self.heritage.state.structural_value,
    {
        self.heritage.state.structural_value()
    }

    /// Retained mass after the transition.
    pub fn retained_mass(&self) -> (r: u128)
        ensures
            r == self.heritage.state.retained_mass,
    {
        self.heritage.state.retained_mass()
    }

    /// Activation count after the transition.
    pub fn activations(&self) -> (r: u64)
        ensures
            r == self.heritage.state.activations,
    {
        self.heritage.state.activations()
    }

    /// The activation this event was recorded at.
    pub fn activation(&self) -> (r: u64)
        ensures
            r == self.activation,
    {
        self.activation
    }

    /// The event's scale.
    pub fn scale(&self) -> (r: Scale)
        ensures
            r == self.scale,
    {
        self.scale
    }

    /// Gives the receipt back.
    pub fn into_heritage(self) -> (r: Heritage)
        ensures
            r == self.heritage,
    {
        self.heritage
    }
}

// =============================================================================
// DIRECTION
// =============================================================================

/// Little-endian bytes of the low `n` bytes of `x`.
pub open spec fn le_bytes(x: nat, n: nat) -> Seq<u8>
    decreases n,
{
    if n == 0 {
        Seq::empty()
    } else {
        seq![(x % 256) as u8] + le_bytes(x / 256, (n - 1) as nat)
    }
}

/// `256^n`.
pub open spec fn pow256(n: nat) -> nat
    decreases n,
{
    if n == 0 {
        1
    } else {
        256 * pow256((n - 1) as nat)
    }
}

/// The number whose little-endian bytes are `s`.
pub open spec fn from_le(s: Seq<u8>) -> nat
    decreases s.len(),
{
    if s.len() == 0 {
        0
    } else {
        s[0] as nat + 256 * from_le(s.drop_first())
    }
}

/// Reading back the little-endian bytes of `x` gives `x`.
pub proof fn lemma_le_bytes_round_trip(x: nat, n: nat)
    requires
        x < pow256(n),
    ensures
        le_bytes(x, n).len() == n,
        from_le(le_bytes(x, n)) == x,
    decreases n,
{
    if n == 0 {
    } else {
        let q = x / 256;
        assert(x == 256 * q + x % 256);
        assert(q < pow256((n - 1) as nat)) by (nonlinear_arith)
            requires
                x < 256 * pow256((n - 1) as nat),
                x == 256 * q + x % 256,
                x % 256 >= 0,
        ;
        lemma_le_bytes_round_trip(q, (n - 1) as nat);
        let s = le_bytes(x, n);
        assert(s.drop_first() =~= le_bytes(q, (n - 1) as nat));
        assert(s[0] as nat == x % 256);
    }
}

/// The 24 bytes of `retain_bytes` decode back to the mass (first 16) and the
/// dimension (last 8).
pub proof fn lemma_retain_bytes_decode(mass: u128, from: u64)
    ensures
        ({
            let b = le_bytes(mass as nat, 16) + le_bytes(from as nat, 8);
            &&& b.len() == 24
            &&& from_le(b.subrange(0, 16)) == mass
            &&& from_le(b.subrange(16, 24)) == from
        }),
{
    assert(pow256(16) == 0x1_0000_0000_0000_0000_0000_0000_0000_0000) by {
        reveal_with_fuel(pow256, 17);
    }
    assert(pow256(8) == 0x1_0000_0000_0000_0000) by {
        reveal_with_fuel(pow256, 9);
    }
    lemma_le_bytes_round_trip(mass as nat, 16);
    lemma_le_bytes_round_trip(from as nat, 8);
    let b = le_bytes(mass as nat, 16) + le_bytes(from as nat, 8);
    assert(b.subrange(0, 16) =~= le_bytes(mass as nat, 16));
    assert(b.subrange(16, 24) =~= le_bytes(from as nat, 8));
}

/// The transition boundary: owns the event of a transition.
pub struct Direction {
    pub event: EventMap,
}

impl Direction {
    /// What realizing `depth` against `manifold` retains: the masses of every
    /// realized object added (saturating), from the manifold's dimension.
    pub fn realize_depth(manifold: &QuantPerm, depth: &Depth) -> (r: Retain)
        ensures
            forall|s: Seq<DepthEntry>| #[trigger] depth.listed(s) ==> r.mass == mass_total(s),
            forall|s: Seq<DepthEntry>| #[trigger] depth.listed(s) ==> r.mass == (if mass_sum(s)
                > u128::MAX {
                u128::MAX as nat
            } else {
                mass_sum(s)
            }),
            r.from == manifold_dimension(*manifold),
    {
        let objs = depth.objects();
        let ghost listing = entry_views(objs@);
        let mut mass: u128 = 0;
        let n = objs.len();
        let mut i: usize = 0;
        while i < n
            invariant
                n == objs@.len(),
                listing == entry_views(objs@),
                0 <= i <= n,
                mass == mass_total(listing.take(i as int)),
            decreases n - i,
        {
            assert(listing.take(i + 1).drop_last() =~= listing.take(i as int));
            mass = mass.saturating_add(objs[i].2.mass);
            i = i + 1;
        }
        assert(listing.take(n as int) =~= listing);
        proof {
            assert forall|s: Seq<DepthEntry>| #[trigger] depth.listed(s) implies mass
                == mass_total(s) by {
                depth.lemma_listed_unique(s, listing);
            }
            assert forall|s: Seq<DepthEntry>| #[trigger] depth.listed(s) implies mass == (if mass_sum(s)
                > u128::MAX {
                u128::MAX as nat
            } else {
                mass_sum(s)
            }) by {
                depth.lemma_listed_unique(s, listing);
                lemma_mass_total_is_capped_sum(s);
            }
        }
        Retain { mass, from: read_dimension(manifold) }
    }

    /// The canonical transition: realize `depth`, retain its mass into the
    /// manifold, and take one transition under the optional seed. Returns the
    /// receipt: τ, Δ between the old and new dimension, gross work τ·Δ
    /// (saturating), net work (gross less the prior Σ, floored at 0), and the
    /// state the manifold was left in.
    pub fn transit(manifold: QuantPerm, depth: &Depth, provided_seed: Option<&[u8]>) -> (h:
        Heritage)
        requires
            manifold_activations(manifold) < u64::MAX,
        ensures
            forall|s: Seq<DepthEntry>| #[trigger]
                depth.listed(s) ==> h.state.retained_mass == sat_add(
                    manifold_retained_mass(manifold),
                    mass_total(s),
                ),
            (h.state.dimension, h.transition.tau) == transition_outcome(
                seed_view(provided_seed),
                manifold_dimension(manifold),
                manifold_activations(manifold),
                h.state.retained_mass,
            ),
            h.state.activations == manifold_activations(manifold) + 1,
            h.transition.delta == arc_delta(manifold_dimension(manifold), h.state.dimension),
            h.transition.gross_work == sat_mul(h.transition.tau, h.transition.delta),
            h.transition.net_work == sat_sub(
                h.transition.gross_work,
                manifold_structural_value(manifold),
            ),
            h.state.structural_value == sat_add(
                manifold_structural_value(manifold),
                h.transition.net_work,
            ),
            h.state.structural_value >= manifold_structural_value(manifold),
            h.state.structural_value == (if h.transition.gross_work > manifold_structural_value(
                manifold,
            ) {
                h.transition.gross_work
            } else {
                manifold_structural_value(manifold)
            }),
            179 <= h.transition.delta <= 180,
    {
        let retain = Self::realize_depth(&manifold, depth);
        let mut m = manifold;
        let from = read_dimension(&m);
        let sigma = read_structural_value(&m);
        retain_mass(&mut m, retain.mass);
        let tau = run_transition(&mut m, provided_seed);
        let to = read_dimension(&m);
        let delta = manifold_arc_delta(from, to);
        let gross_work = saturating_mul_u128(tau, delta);
        let net_work = gross_work.saturating_sub(sigma);
        proof {
            lemma_sigma_after_net_work(sigma, gross_work);
            lemma_arc_delta_laws(from, to);
        }
        let state = ManifoldState {
            dimension: to,
            structural_value: read_structural_value(&m),
            retained_mass: read_retained_mass(&m),
            activations: read_activations(&m),
        };
        Heritage { transition: TransitionReceipt { tau, delta, gross_work, net_work }, state }
    }

    /// `transit`, where the manifold can still count one more activation;
    /// `None` (and the manifold dropped) where its count is already `u64::MAX`.
    pub fn checked_transit(manifold: QuantPerm, depth: &Depth, provided_seed: Option<&[u8]>) -> (r:
        Option<Heritage>)
        ensures
            r is None <==> manifold_activations(manifold) == u64::MAX,
            r matches Some(h) ==> {
                &&& forall|s: Seq<DepthEntry>| #[trigger]
                    depth.listed(s) ==> h.state.retained_mass == sat_add(
                        manifold_retained_mass(manifold),
                        mass_total(s),
                    )
                &&& (h.state.dimension, h.transition.tau) == transition_outcome(
                    seed_view(provided_seed),
                    manifold_dimension(manifold),
                    manifold_activations(manifold),
                    h.state.retained_mass,
                )
                &&& h.state.activations == manifold_activations(manifold) + 1
                &&& h.transition.delta == arc_delta(manifold_dimension(manifold), h.state.dimension)
                &&& h.transition.gross_work == sat_mul(h.transition.tau, h.transition.delta)
                &&& h.transition.net_work == sat_sub(
                    h.transition.gross_work,
                    manifold_structural_value(manifold),
                )
                &&& h.state.structural_value == sat_add(
                    manifold_structural_value(manifold),
                    h.transition.net_work,
                )
            },
    {
        if read_activations(&manifold) == u64::MAX {
            None
        } else {
            Some(Self::transit(manifold, depth, provided_seed))
        }
    }

    /// The direction owning the event of `heritage`, observed now.
    pub fn new(heritage: Heritage, scale: Scale) -> (d: Self)
        ensures
            d.event.heritage == heritage,
            d.event.activation == heritage.state.activations,
            d.event.scale == scale,
    {
        Direction { event: EventMap::now(heritage, scale) }
    }

    /// Same as `new`.
    pub fn from_heritage(heritage: Heritage, scale: Scale) -> (d: Self)
        ensures
            d.event.heritage == heritage,
            d.event.activation == heritage.state.activations,
            d.event.scale == scale,
    {
        Self::new(heritage, scale)
    }

    /// The owned event.
    pub fn event(&self) -> (r: &EventMap)
        ensures
            *r == self.event,
    {
        &self.event
    }

    /// The owned event, for change.
    pub fn event_mut(&mut self) -> (r: &mut EventMap)
        ensures
            *r == old(self).event,
            final(self).event == *final(r),
    {
        &mut self.event
    }

    /// The receipt.
    pub fn heritage(&self) -> (r: &Heritage)
        ensures
            *r == self.event.heritage,
    {
        self.event.heritage()
    }

    /// The activation of the event.
    pub fn activation(&self) -> (r: u64)
        ensures
            r == self.event.activation,
    {
        self.event.activation()
    }

    /// Dimension after the transition.
    pub fn dimension(&self) -> (r: u64)
        ensures
            r == self.event.heritage.state.dimension,
    {
        self.event.dimension()
    }

    /// Structural value after the transition.
    pub fn structural_value(&self) -> (r: u128)
        ensures
            r == self.event.heritage.state.structural_value,
    {
        self.event.structural_value()
    }

    /// Retained mass after the transition.
    pub fn retained_mass(&self) -> (r: u128)
        ensures
            r == self.event.heritage.state.retained_mass,
    {
        self.event.retained_mass()
    }

    /// What the manifold now retains, from its current dimension.
    pub fn retain(&self) -> (r: Retain)
        ensures
            r.mass == self.event.heritage.state.retained_mass,
            r.from == self.event.heritage.state.dimension,
    {
        Retain { mass: self.retained_mass(), from: self.event.dimension() }
    }

    /// `retain()` as 24 bytes: the mass (16 bytes) then the dimension
    /// (8 bytes), both little-endian.
    pub fn retain_bytes(&self) -> (r: [u8; 24])
        ensures
            r@ == le_bytes(self.event.heritage.state.retained_mass as nat, 16) + le_bytes(
                self.event.heritage.state.dimension as nat,
                8,
            ),
            from_le(r@.subrange(0, 16)) == self.event.heritage.state.retained_mass,
            from_le(r@.subrange(16, 24)) == self.event.heritage.state.dimension,
            r@[0] == (self.event.heritage.state.retained_mass % 256) as u8,
            r@[16] == (self.event.heritage.state.dimension % 256) as u8,
    {
        proof {
            lemma_retain_bytes_decode(
                self.event.heritage.state.retained_mass,
                self.event.heritage.state.dimension,
            );
        }
        let retain = self.retain();
        let mut bytes = [0u8; 24];
        let mut m: u128 = retain.mass;
        let mut i: usize = 0;
        while i < 16
            invariant
                0 <= i <= 16,
                bytes@.len() == 24,
                bytes@.take(i as int) + le_bytes(m as nat, (16 - i) as nat) == le_bytes(
                    retain.mass as nat,
                    16,
                ),
            decreases 16 - i,
        {
            let ghost before = bytes@;
            bytes[i] = (m % 256) as u8;
            assert(bytes@.take(i + 1) =~= before.take(i as int).push((m % 256) as u8));
            assert(le_bytes(m as nat, (16 - i) as nat) =~= seq![(m % 256) as u8] + le_bytes(
                (m / 256) as nat,
                (16 - i - 1) as nat,
            ));
            assert(bytes@.take(i + 1) + le_bytes((m / 256) as nat, (16 - i - 1) as nat)
                =~= bytes@.take(i as int) + le_bytes(m as nat, (16 - i) as nat)) by {
                assert(before.take(i as int) =~= bytes@.take(i as int));
            }
            m = m / 256;
            i = i + 1;
        }
        let mut f: u64 = retain.from;
        while i < 24
            invariant
                16 <= i <= 24,
                bytes@.len() == 24,
                bytes@.take(i as int) + le_bytes(f as nat, (24 - i) as nat) == le_bytes(
                    retain.mass as nat,
                    16,
                ) + le_bytes(retain.from as nat, 8),
            decreases 24 - i,
        {
            let ghost before = bytes@;
            bytes[i] = (f % 256) as u8;
            assert(bytes@.take(i + 1) =~= before.take(i as int).push((f % 256) as u8));
            assert(le_bytes(f as nat, (24 - i) as nat) =~= seq![(f % 256) as u8] + le_bytes(
                (f / 256) as nat,
                (24 - i - 1) as nat,
            ));
            assert(bytes@.take(i + 1) + le_bytes((f / 256) as nat, (24 - i - 1) as nat)
                =~= bytes@.take(i as int) + le_bytes(f as nat, (24 - i) as nat)) by {
                assert(before.take(i as int) =~= bytes@.take(i as int));
            }
            f = f / 256;
            i = i + 1;
        }
        assert(le_bytes(f as nat, 0) =~= Seq::<u8>::empty());
        assert(bytes@.take(24) =~= bytes@);
        bytes
    }

    /// Net work of the transition.
    pub fn net_work(&self) -> (r: u128)
        ensures
            r == self.event.heritage.transition.net_work,
    {
        self.event.net_work()
    }

    /// τ of the transition.
    pub fn tau(&self) -> (r: u128)
        ensures
            r == self.event.heritage.transition.tau,
    {
        self.event.tau()
    }

    /// The event's scale.
    pub fn scale(&self) -> (r: Scale)
        ensures
            r == self.event.scale,
    {
        self.event.scale()
    }

    /// Gives the event back.
    pub fn into_event(self) -> (r: EventMap)
        ensures
            r == self.event,
    {
        self.event
    }

    /// Gives the receipt back.
    pub fn into_heritage(self) -> (r: Heritage)
        ensures
            r == self.event.heritage,
    {
        self.event.into_heritage()
    }
}

} // verus!
