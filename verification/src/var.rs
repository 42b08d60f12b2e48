//! The session variable store: a key/value table manipulated by the
//! `export` builtin, the only state that outlives one input line.
use crate::parse::{append_bytes, dup_bytes};
use vstd::prelude::*;

verus! {

/// Why a word is not a valid `KEY=VALUE` operand.
#[derive(Debug, Clone, Copy, PartialEq, Eq, Structural)]
pub enum VarError {
    /// The key part before `=` is empty.
    EmptyKey,
}

/// One variable: a key and a value.
#[derive(Debug)]
pub struct Var(pub Vec<u8>, pub Vec<u8>);

impl View for Var {
    type V = (Seq<u8>, Seq<u8>);

    open spec fn view(&self) -> (Seq<u8>, Seq<u8>) {
        (self.0@, self.1@)
    }
}

pub open spec fn vars_view(s: Seq<Var>) -> Seq<(Seq<u8>, Seq<u8>)> {
    s.map_values(|v: Var| v@)
}

/// The first position of `=` in `w`, if any.
pub open spec fn find_eq(w: Seq<u8>, from: int) -> Option<int>
    decreases w.len() - from,
{
    if from < 0 || from >= w.len() {
        None
    } else if w[from] == 61 {
        Some(from)
    } else {
        find_eq(w, from + 1)
    }
}

proof fn lemma_find_eq_bounds(w: Seq<u8>, from: int, j: int)
    requires
        find_eq(w, from) == Some(j),
    ensures
        from <= j < w.len(),
    decreases w.len() - from,
{
    if !(from < 0 || from >= w.len()) {
        if w[from] == 61 {
        } else {
            lemma_find_eq_bounds(w, from + 1, j);
        }
    }
}

/// How a `KEY=VALUE` word splits: the key runs to the first `=`, the value
/// is what follows it; with no `=` the whole word is the key and the value
/// is empty. An empty key is rejected.
pub open spec fn spec_var_of(w: Seq<u8>) -> Result<(Seq<u8>, Seq<u8>), VarError> {
    let kv = match find_eq(w, 0) {
        Some(j) => (w.take(j), w.skip(j + 1)),
        None => (w, Seq::<u8>::empty()),
    };
    if kv.0.len() == 0 {
        Err(VarError::EmptyKey)
    } else {
        Ok(kv)
    }
}

impl Var {
    /// Splits one word at its first `=` into a variable; a missing `=` means
    /// an empty value, an empty key is rejected.
    pub fn from_word(w: &[u8]) -> (r: Result<Var, VarError>)
        ensures
            (match r {
                Ok(v) => spec_var_of(w@) == Ok::<(Seq<u8>, Seq<u8>), VarError>(v@),
                Err(e) => spec_var_of(w@) == Err::<(Seq<u8>, Seq<u8>), VarError>(e),
            }),
    {
        let n = w.len();
        let mut j: usize = 0;
        let mut found = false;
        while j < n && !found
            invariant
                j <= n,
                n == w@.len(),
                !found ==> find_eq(w@, 0) == find_eq(w@, j as int),
                found ==> j < n && find_eq(w@, 0) == Some(j as int),
            decreases n - j + (if found { 0int } else { 1int }),
        {
            if w[j] == 61 {
                found = true;
            } else {
                j = j + 1;
            }
        }
        if found {
            if j == 0 {
                return Err(VarError::EmptyKey);
            }
            let key = crate::scan::copy_range(w, 0, j);
            let value = crate::scan::copy_range(w, j + 1, n);
            proof {
                assert(key@ =~= w@.take(j as int));
                assert(value@ =~= w@.skip(j + 1 as int));
            }
            Ok(Var(key, value))
        } else {
            proof {
                assert(find_eq(w@, n as int) is None);
            }
            if n == 0 {
                return Err(VarError::EmptyKey);
            }
            let key = crate::scan::copy_range(w, 0, n);
            proof {
                assert(key@ =~= w@);
            }
            Ok(Var(key, Vec::new()))
        }
    }
}

/// The map an entry list stands for: later entries win.
pub open spec fn assoc_map(s: Seq<(Seq<u8>, Seq<u8>)>) -> Map<Seq<u8>, Seq<u8>>
    decreases s.len(),
{
    if s.len() == 0 {
        Map::empty()
    } else {
        assoc_map(s.drop_last()).insert(s.last().0, s.last().1)
    }
}

/// Setting every pair of `vs` in order, each overwriting or inserting.
pub open spec fn spec_append(m: Map<Seq<u8>, Seq<u8>>, vs: Seq<(Seq<u8>, Seq<u8>)>) -> Map<
    Seq<u8>,
    Seq<u8>,
>
    decreases vs.len(),
{
    if vs.len() == 0 {
        m
    } else {
        spec_append(m.insert(vs[0].0, vs[0].1), vs.skip(1))
    }
}

/// Removing every key of `ks` in order.
pub open spec fn spec_remove(m: Map<Seq<u8>, Seq<u8>>, ks: Seq<Seq<u8>>) -> Map<Seq<u8>, Seq<u8>>
    decreases ks.len(),
{
    if ks.len() == 0 {
        m
    } else {
        spec_remove(m.remove(ks[0]), ks.skip(1))
    }
}

proof fn lemma_assoc_no_key(s: Seq<(Seq<u8>, Seq<u8>)>, k: Seq<u8>)
    requires
        forall|i: int| 0 <= i < s.len() ==> (#[trigger] s[i]).0 != k,
    ensures
        !assoc_map(s).contains_key(k),
    decreases s.len(),
{
    if s.len() > 0 {
        assert(s.last() == s[s.len() - 1]);
        assert(forall|i: int| 0 <= i < s.drop_last().len() ==> (#[trigger] s.drop_last()[i])
            == s[i]);
        lemma_assoc_no_key(s.drop_last(), k);
    }
}

proof fn lemma_assoc_update(s: Seq<(Seq<u8>, Seq<u8>)>, i: int, k: Seq<u8>, v: Seq<u8>)
    requires
        0 <= i < s.len(),
        s[i].0 == k,
        forall|a: int, b: int| 0 <= a < b < s.len() ==> (#[trigger] s[a]).0 != (#[trigger] s[b]).0,
    ensures
        assoc_map(s.update(i, (k, v))) == assoc_map(s).insert(k, v),
    decreases s.len(),
{
    let t = s.update(i, (k, v));
    if i == s.len() - 1 {
        assert(t.drop_last() =~= s.drop_last());
        assert(t.last() == (k, v));
        assert(assoc_map(s).insert(k, v) =~= assoc_map(s.drop_last()).insert(k, v));
        assert(assoc_map(t) =~= assoc_map(s.drop_last()).insert(k, v));
    } else {
        assert(t.drop_last() =~= s.drop_last().update(i, (k, v)));
        assert(t.last() == s.last());
        assert(forall|a: int, b: int| 0 <= a < b < s.drop_last().len() ==> (#[trigger] s.drop_last()[a]).0
            != (#[trigger] s.drop_last()[b]).0);
        assert(s.drop_last()[i] == s[i]);
        lemma_assoc_update(s.drop_last(), i, k, v);
        assert(s.last().0 != k);
        assert(assoc_map(s.drop_last()).insert(k, v).insert(s.last().0, s.last().1)
            =~= assoc_map(s.drop_last()).insert(s.last().0, s.last().1).insert(k, v));
    }
}

proof fn lemma_assoc_push(s: Seq<(Seq<u8>, Seq<u8>)>, k: Seq<u8>, v: Seq<u8>)
    ensures
        assoc_map(s.push((k, v))) == assoc_map(s).insert(k, v),
{
    assert(s.push((k, v)).drop_last() =~= s);
    assert(s.push((k, v)).last() == (k, v));
}

proof fn lemma_assoc_remove(s: Seq<(Seq<u8>, Seq<u8>)>, i: int, k: Seq<u8>)
    requires
        0 <= i < s.len(),
        s[i].0 == k,
        forall|a: int, b: int| 0 <= a < b < s.len() ==> (#[trigger] s[a]).0 != (#[trigger] s[b]).0,
    ensures
        assoc_map(s.remove(i)) == assoc_map(s).remove(k),
    decreases s.len(),
{
    let t = s.remove(i);
    if i == s.len() - 1 {
        assert(t =~= s.drop_last());
        assert(forall|a: int| 0 <= a < s.drop_last().len() ==> (#[trigger] s.drop_last()[a])
            == s[a]);
        assert(forall|a: int| 0 <= a < s.drop_last().len() ==> s.drop_last()[a].0 != k);
        lemma_assoc_no_key(s.drop_last(), k);
        assert(assoc_map(s).remove(k) =~= assoc_map(s.drop_last()).insert(k, s[i].1).remove(k));
        assert(assoc_map(s.drop_last()).insert(k, s[i].1).remove(k) =~= assoc_map(
            s.drop_last(),
        ).remove(k));
        assert(assoc_map(s.drop_last()).remove(k) =~= assoc_map(s.drop_last()));
    } else {
        assert(t.drop_last() =~= s.drop_last().remove(i));
        assert(t.last() == s.last());
        assert(forall|a: int, b: int| 0 <= a < b < s.drop_last().len() ==> (#[trigger] s.drop_last()[a]).0
            != (#[trigger] s.drop_last()[b]).0);
        assert(s.drop_last()[i] == s[i]);
        lemma_assoc_remove(s.drop_last(), i, k);
        assert(s.last().0 != k);
        assert(assoc_map(s.drop_last()).remove(k).insert(s.last().0, s.last().1)
            =~= assoc_map(s.drop_last()).insert(s.last().0, s.last().1).remove(k));
    }
}

/// The session's variable table: keys unique, insertion order irrelevant.
#[derive(Debug)]
pub struct Vars {
    vars: Vec<(Vec<u8>, Vec<u8>)>,
}

impl View for Vars {
    type V = Map<Seq<u8>, Seq<u8>>;

    open spec fn view(&self) -> Map<Seq<u8>, Seq<u8>> {
        assoc_map(self.entries())
    }
}

impl Vars {
    /// The entry list behind the map.
    pub closed spec fn entries(&self) -> Seq<(Seq<u8>, Seq<u8>)> {
        self.vars@.map_values(|p: (Vec<u8>, Vec<u8>)| (p.0@, p.1@))
    }

    /// Every key occurs once.
    pub open spec fn wf(&self) -> bool {
        forall|a: int, b: int| 0 <= a < b < self.entries().len() ==> (
        #[trigger] self.entries()[a]).0 != (#[trigger] self.entries()[b]).0
    }

    /// Looks one variable up.
    pub fn get(&self, key: &[u8]) -> (r: Option<&Vec<u8>>)
        requires
            self.wf(),
        ensures
            (match r {
                Some(v) => self@.contains_key(key@) && self@[key@] == v@,
                None => !self@.contains_key(key@),
            }),
    {
        let ghost es = self.entries();
        let n = self.vars.len();
        let mut i: usize = 0;
        while i < n
            invariant
                i <= n,
                n == self.vars@.len(),
                self.wf(),
                es == self.entries(),
                forall|m: int| 0 <= m < i ==> (#[trigger] es[m]).0 != key@,
            decreases n - i,
        {
            if bytes_eq(&self.vars[i].0, key) {
                let ghost idx = i as int;
                proof {
                    lemma_assoc_found(es, idx, key@);
                }
                return Some(&self.vars[i].1);
            }
            i = i + 1;
        }
        proof {
            lemma_assoc_no_key(es, key@);
        }
        None
    }

    /// Sets one variable: overwrites the key's value or inserts the pair.
    fn set(&mut self, key: Vec<u8>, value: Vec<u8>)
        requires
            old(self).wf(),
        ensures
            final(self).wf(),
            final(self)@ == old(self)@.insert(key@, value@),
    {
        let ghost es = self.entries();
        let n = self.vars.len();
        let mut i: usize = 0;
        while i < n
            invariant
                i <= n,
                n == self.vars@.len(),
                self.wf(),
                es == self.entries(),
                es == old(self).entries(),
                forall|m: int| 0 <= m < i ==> (#[trigger] es[m]).0 != key@,
            decreases n - i,
        {
            if bytes_eq(&self.vars[i].0, key.as_slice()) {
                let ghost idx = i as int;
                self.vars[i] = (key, value);
                proof {
                    assert(self.entries() =~= es.update(idx, (key@, value@)));
                    lemma_assoc_update(es, idx, key@, value@);
                    assert(forall|a: int, b: int|
                        0 <= a < b < self.entries().len() ==> (#[trigger] self.entries()[a]).0 != (
                        #[trigger] self.entries()[b]).0);
                }
                return ;
            }
            i = i + 1;
        }
        self.vars.push((key, value));
        proof {
            assert(self.entries() =~= es.push((key@, value@)));
            lemma_assoc_push(es, key@, value@);
        }
    }

    /// Drops one variable if its key is present.
    fn unset(&mut self, key: &Vec<u8>)
        requires
            old(self).wf(),
        ensures
            final(self).wf(),
            final(self)@ == old(self)@.remove(key@),
    {
        let ghost es = self.entries();
        let n = self.vars.len();
        let mut i: usize = 0;
        while i < n
            invariant
                i <= n,
                n == self.vars@.len(),
                self.wf(),
                es == self.entries(),
                es == old(self).entries(),
                forall|m: int| 0 <= m < i ==> (#[trigger] es[m]).0 != key@,
            decreases n - i,
        {
            if bytes_eq(&self.vars[i].0, key.as_slice()) {
                let ghost idx = i as int;
                self.vars.remove(i);
                proof {
                    assert(self.entries() =~= es.remove(idx));
                    lemma_assoc_remove(es, idx, key@);
                    assert(forall|a: int, b: int|
                        0 <= a < b < self.entries().len() ==> (#[trigger] self.entries()[a]).0 != (
                        #[trigger] self.entries()[b]).0);
                }
                return ;
            }
            i = i + 1;
        }
        proof {
            lemma_assoc_no_key(es, key@);
            assert(self@.remove(key@) =~= self@);
        }
    }

    /// Inserts or overwrites every given variable, in order.
    pub fn append(&mut self, vars: Vec<Var>)
        requires
            old(self).wf(),
        ensures
            final(self).wf(),
            final(self)@ == spec_append(old(self)@, vars_view(vars@)),
    {
        let ghost vs = vars_view(vars@);
        let n = vars.len();
        let mut i: usize = 0;
        proof {
            assert(vs.skip(0) =~= vs);
        }
        while i < n
            invariant
                i <= n,
                n == vars@.len(),
                vs == vars_view(vars@),
                self.wf(),
                spec_append(old(self)@, vs) == spec_append(self@, vs.skip(i as int)),
            decreases n - i,
        {
            let ghost rem = vs.skip(i as int);
            proof {
                assert(rem[0] == vs[i as int]);
                assert(rem.skip(1) =~= vs.skip(i + 1 as int));
            }
            let key = dup_bytes(&vars[i].0);
            let value = dup_bytes(&vars[i].1);
            self.set(key, value);
            i = i + 1;
        }
        proof {
            assert(vs.skip(n as int) =~= Seq::<(Seq<u8>, Seq<u8>)>::empty());
        }
    }

    /// Removes every given variable by key, in order; values are ignored.
    pub fn remove(&mut self, vars: Vec<Var>)
        requires
            old(self).wf(),
        ensures
            final(self).wf(),
            final(self)@ == spec_remove(old(self)@, vars_view(vars@).map_values(
                |p: (Seq<u8>, Seq<u8>)| p.0,
            )),
    {
        let ghost ks = vars_view(vars@).map_values(|p: (Seq<u8>, Seq<u8>)| p.0);
        let n = vars.len();
        let mut i: usize = 0;
        proof {
            assert(ks.skip(0) =~= ks);
        }
        while i < n
            invariant
                i <= n,
                n == vars@.len(),
                ks == vars_view(vars@).map_values(|p: (Seq<u8>, Seq<u8>)| p.0),
                self.wf(),
                spec_remove(old(self)@, ks) == spec_remove(self@, ks.skip(i as int)),
            decreases n - i,
        {
            let ghost rem = ks.skip(i as int);
            proof {
                assert(rem[0] == ks[i as int]);
                assert(rem.skip(1) =~= ks.skip(i + 1 as int));
            }
            self.unset(&vars[i].0);
            i = i + 1;
        }
        proof {
            assert(ks.skip(n as int) =~= Seq::<Seq<u8>>::empty());
        }
    }
}

impl Default for Vars {
    /// The empty store.
    fn default() -> (r: Vars)
        ensures
            r@ == Map::<Seq<u8>, Seq<u8>>::empty(),
            r.wf(),
    {
        let r = Vars { vars: Vec::new() };
        proof {
            assert(r.entries() =~= Seq::<(Seq<u8>, Seq<u8>)>::empty());
        }
        r
    }
}

proof fn lemma_assoc_found(s: Seq<(Seq<u8>, Seq<u8>)>, i: int, k: Seq<u8>)
    requires
        0 <= i < s.len(),
        s[i].0 == k,
        forall|a: int, b: int| 0 <= a < b < s.len() ==> (#[trigger] s[a]).0 != (#[trigger] s[b]).0,
    ensures
        assoc_map(s).contains_key(k),
        assoc_map(s)[k] == s[i].1,
    decreases s.len(),
{
    if i == s.len() - 1 {
    } else {
        assert(forall|a: int, b: int| 0 <= a < b < s.drop_last().len() ==> (#[trigger] s.drop_last()[a]).0
            != (#[trigger] s.drop_last()[b]).0);
        assert(s.drop_last()[i] == s[i]);
        lemma_assoc_found(s.drop_last(), i, k);
        assert(s.last().0 != k);
    }
}

/// Compares two byte strings.
pub fn bytes_eq(a: &Vec<u8>, b: &[u8]) -> (r: bool)
    ensures
        r == (a@ == b@),
{
    let n = a.len();
    if n != b.len() {
        proof {
            assert(a@.len() != b@.len());
        }
        return false;
    }
    let mut i: usize = 0;
    while i < n
        invariant
            i <= n,
            n == a@.len(),
            n == b@.len(),
            forall|m: int| 0 <= m < i ==> a@[m] == b@[m],
        decreases n - i,
    {
        if a[i] != b[i] {
            return false;
        }
        i = i + 1;
    }
    proof {
        assert(a@ =~= b@);
    }
    true
}

} // verus!
