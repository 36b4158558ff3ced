//! The JSON-like data that templates are evaluated against, and lookup of
//! dot-separated paths in it.
use vstd::prelude::*;

verus! {

/// A JSON-like value. A number is held as its canonical decimal text.
/// An object is a list of entries; lookup takes the first entry with a key.
#[derive(Debug)]
pub enum Scope {
    Null,
    Bool(bool),
    Number(String),
    Str(String),
    Array(Vec<Scope>),
    Object(Vec<(String, Scope)>),
}

/// Mathematical form of a scope value.
pub enum ScopeV {
    Null,
    Bool(bool),
    Number(Seq<char>),
    Str(Seq<char>),
    Array(Seq<ScopeV>),
    Object(Seq<(Seq<char>, ScopeV)>),
}

impl View for Scope {
    type V = ScopeV;

    open spec fn view(&self) -> ScopeV
        decreases self,
    {
        match self {
            Scope::Null => ScopeV::Null,
            Scope::Bool(b) => ScopeV::Bool(*b),
            Scope::Number(n) => ScopeV::Number(n@),
            Scope::Str(s) => ScopeV::Str(s@),
            Scope::Array(items) => ScopeV::Array(scopes_view(items@)),
            Scope::Object(entries) => ScopeV::Object(entries_view(entries@)),
        }
    }
}

pub open spec fn scopes_view(s: Seq<Scope>) -> Seq<ScopeV>
    decreases s,
{
    if s.len() == 0 {
        Seq::empty()
    } else {
        scopes_view(s.drop_last()).push(s.last().view())
    }
}

pub open spec fn entries_view(s: Seq<(String, Scope)>) -> Seq<(Seq<char>, ScopeV)>
    decreases s,
{
    if s.len() == 0 {
        Seq::empty()
    } else {
        entries_view(s.drop_last()).push((s.last().0@, s.last().1.view()))
    }
}

pub proof fn lemma_scopes_view(s: Seq<Scope>)
    ensures
        scopes_view(s).len() == s.len(),
        forall|i: int| 0 <= i < s.len() ==> #[trigger] scopes_view(s)[i] == s[i]@,
    decreases s.len(),
{
    if s.len() > 0 {
        lemma_scopes_view(s.drop_last());
        assert(scopes_view(s) == scopes_view(s.drop_last()).push(s.last()@));
    }
}

pub proof fn lemma_entries_view(s: Seq<(String, Scope)>)
    ensures
        entries_view(s).len() == s.len(),
        forall|i: int|
            0 <= i < s.len() ==> #[trigger] entries_view(s)[i] == (s[i].0@, s[i].1@),
    decreases s.len(),
{
    if s.len() > 0 {
        lemma_entries_view(s.drop_last());
        assert(entries_view(s) == entries_view(s.drop_last()).push((s.last().0@, s.last().1@)));
    }
}

/// The value of the first entry with key `key`.
pub open spec fn entry_value(es: Seq<(Seq<char>, ScopeV)>, key: Seq<char>) -> Option<ScopeV>
    decreases es.len(),
{
    if es.len() == 0 {
        None
    } else if es[0].0 == key {
        Some(es[0].1)
    } else {
        entry_value(es.drop_first(), key)
    }
}

/// The member `key` of an object; nothing for any other value.
pub open spec fn member(v: ScopeV, key: Seq<char>) -> Option<ScopeV> {
    match v {
        ScopeV::Object(es) => entry_value(es, key),
        _ => None,
    }
}

/// The pieces of `p` between dots, the current piece starting as `cur`.
pub open spec fn segments_from(p: Seq<char>, cur: Seq<char>) -> Seq<Seq<char>>
    decreases p.len(),
{
    if p.len() == 0 {
        seq![cur]
    } else if p[0] == '.' {
        seq![cur] + segments_from(p.drop_first(), Seq::empty())
    } else {
        segments_from(p.drop_first(), cur.push(p[0]))
    }
}

/// The dot-separated segments of a path (`"a.b"` gives `a`, `b`).
pub open spec fn segments(p: Seq<char>) -> Seq<Seq<char>> {
    segments_from(p, Seq::empty())
}

/// Descends `v` one object member per segment.
pub open spec fn resolve(v: ScopeV, segs: Seq<Seq<char>>) -> Option<ScopeV>
    decreases segs.len(),
{
    if segs.len() == 0 {
        Some(v)
    } else {
        match member(v, segs[0]) {
            Some(c) => resolve(c, segs.drop_first()),
            None => None,
        }
    }
}

/// The value at a dot-separated path.
pub open spec fn lookup(v: ScopeV, path: Seq<char>) -> Option<ScopeV> {
    resolve(v, segments(path))
}

/// The text of a string, boolean or number; nothing for other values.
pub open spec fn scalar_text(v: ScopeV) -> Option<Seq<char>> {
    match v {
        ScopeV::Str(s) => Some(s),
        ScopeV::Bool(b) => Some(
            if b {
                "true"@
            } else {
                "false"@
            },
        ),
        ScopeV::Number(n) => Some(n),
        _ => None,
    }
}

/// The text that the path `path` stands for in `v`, if it names a scalar.
pub open spec fn literal(v: ScopeV, path: Seq<char>) -> Option<Seq<char>> {
    match lookup(v, path) {
        Some(x) => scalar_text(x),
        None => None,
    }
}

/// The segments of a dot-separated path.
pub fn split_path(path: &String) -> (r: Vec<String>)
    ensures
        r@.map_values(|x: String| x@) == segments(path@),
{
    let ghost p = path@;
    let n: usize = path.as_str().unicode_len();
    let mut done: Vec<String> = Vec::new();
    let mut cur = String::new();
    let mut i: usize = 0;
    assert(p.skip(0) =~= p);
    assert(done@.map_values(|x: String| x@) + segments_from(p, cur@) =~= segments_from(p, cur@));
    while i < n
        invariant
            n == p.len(),
            i <= n,
            p == path@,
            segments(p) == done@.map_values(|x: String| x@) + segments_from(p.skip(i as int), cur@),
        decreases n - i,
    {
        let c = path.as_str().get_char(i);
        let ghost rest = p.skip(i as int);
        assert(rest.drop_first() =~= p.skip(i + 1));
        if c == '.' {
            let ghost before = done@;
            done.push(cur);
            cur = String::new();
            assert(done@.map_values(|x: String| x@) =~= before.map_values(|x: String| x@).push(
                done@[done@.len() - 1]@,
            ));
            assert(segments(p) == done@.map_values(|x: String| x@) + segments_from(
                p.skip(i + 1),
                cur@,
            )) by {
                assert(cur@ =~= Seq::<char>::empty());
                assert(segments_from(rest, done@[done@.len() - 1]@) == seq![done@[done@.len() - 1]@]
                    + segments_from(rest.drop_first(), Seq::empty()));
                assert(before.map_values(|x: String| x@) + segments_from(
                    rest,
                    done@[done@.len() - 1]@,
                ) =~= done@.map_values(|x: String| x@) + segments_from(
                    rest.drop_first(),
                    Seq::empty(),
                ));
            }
        } else {
            cur.push(c);
        }
        i += 1;
    }
    let ghost before = done@;
    assert(p.skip(n as int) =~= Seq::<char>::empty());
    done.push(cur);
    assert(done@.map_values(|x: String| x@) =~= before.map_values(|x: String| x@) + seq![
        done@[done@.len() - 1]@,
    ]);
    done
}

impl Scope {
    /// A deep copy of this value.
    pub fn duplicate(&self) -> (r: Scope)
        ensures
            r@ == self@,
        decreases self,
    {
        match self {
            Scope::Null => Scope::Null,
            Scope::Bool(b) => Scope::Bool(*b),
            Scope::Number(n) => Scope::Number(n.clone()),
            Scope::Str(s) => Scope::Str(s.clone()),
            Scope::Array(items) => Scope::Array(duplicate_scopes(items)),
            Scope::Object(entries) => Scope::Object(duplicate_entries(entries)),
        }
    }

    /// The member `key` of an object value.
    pub fn get(&self, key: &String) -> (r: Option<&Scope>)
        ensures
            match member(self@, key@) {
                Some(x) => r is Some && r->Some_0@ == x,
                None => r is None,
            },
    {
        match self {
            Scope::Object(entries) => {
                let ghost es = entries_view(entries@);
                proof {
                    lemma_entries_view(entries@);
                }
                let mut i: usize = 0;
                assert(es.skip(0) =~= es);
                while i < entries.len()
                    invariant
                        i <= entries@.len(),
                        es == entries_view(entries@),
                        self@ == ScopeV::Object(es),
                        es.len() == entries@.len(),
                        forall|j: int|
                            0 <= j < entries@.len() ==> #[trigger] es[j] == (
                                entries@[j].0@,
                                entries@[j].1@,
                            ),
                        entry_value(es, key@) == entry_value(es.skip(i as int), key@),
                    decreases entries@.len() - i,
                {
                    assert(es.skip(i as int).drop_first() =~= es.skip(i + 1));
                    if entries[i].0 == *key {
                        assert(es.skip(i as int)[0] == es[i as int]);
                        assert(self@ == ScopeV::Object(es));
                        assert(entry_value(es.skip(i as int), key@) == Some(es[i as int].1));
                        return Some(&entries[i].1);
                    }
                    i += 1;
                }
                assert(es.skip(i as int) =~= Seq::<(Seq<char>, ScopeV)>::empty());
                None
            },
            _ => None,
        }
    }

    /// The value at a dot-separated path.
    pub fn descend(&self, path: &String) -> (r: Option<&Scope>)
        ensures
            match lookup(self@, path@) {
                Some(x) => r is Some && r->Some_0@ == x,
                None => r is None,
            },
    {
        let segs = split_path(path);
        let ghost sv = segs@.map_values(|x: String| x@);
        let mut cur: &Scope = self;
        let mut i: usize = 0;
        assert(sv.skip(0) =~= sv);
        while i < segs.len()
            invariant
                i <= segs@.len(),
                sv == segs@.map_values(|x: String| x@),
                sv == segments(path@),
                lookup(self@, path@) == resolve(cur@, sv.skip(i as int)),
            decreases segs@.len() - i,
        {
            assert(sv.skip(i as int).drop_first() =~= sv.skip(i + 1));
            match cur.get(&segs[i]) {
                Some(next) => {
                    cur = next;
                },
                None => {
                    return None;
                },
            }
            i += 1;
        }
        assert(sv.skip(i as int) =~= Seq::<Seq<char>>::empty());
        Some(cur)
    }
}

/// Deep copies of the values of `v`, in order.
pub fn duplicate_scopes(v: &Vec<Scope>) -> (r: Vec<Scope>)
    ensures
        scopes_view(r@) == scopes_view(v@),
    decreases v,
{
    let mut out: Vec<Scope> = Vec::new();
    let mut k: usize = 0;
    proof {
        lemma_scopes_view(v@);
    }
    while k < v.len()
        invariant
            k <= v@.len(),
            scopes_view(v@).len() == v@.len(),
            forall|j: int| 0 <= j < v@.len() ==> #[trigger] scopes_view(v@)[j] == v@[j]@,
            scopes_view(out@) == scopes_view(v@).take(k as int),
        decreases v@.len() - k,
    {
        let ghost before = out@;
        proof {
            assert(decreases_to!(v => v@));
            assert(decreases_to!(v@ => v@[k as int]));
        }
        let c = v[k].duplicate();
        out.push(c);
        assert(out@.drop_last() =~= before);
        assert(scopes_view(v@).take(k + 1) =~= scopes_view(v@).take(k as int).push(
            scopes_view(v@)[k as int],
        ));
        k += 1;
    }
    assert(scopes_view(v@).take(v@.len() as int) =~= scopes_view(v@));
    out
}

/// Deep copies of the entries of `v`, in order.
pub fn duplicate_entries(v: &Vec<(String, Scope)>) -> (r: Vec<(String, Scope)>)
    ensures
        entries_view(r@) == entries_view(v@),
    decreases v,
{
    let mut out: Vec<(String, Scope)> = Vec::new();
    let mut k: usize = 0;
    proof {
        lemma_entries_view(v@);
    }
    while k < v.len()
        invariant
            k <= v@.len(),
            entries_view(v@).len() == v@.len(),
            forall|j: int|
                0 <= j < v@.len() ==> #[trigger] entries_view(v@)[j] == (v@[j].0@, v@[j].1@),
            entries_view(out@) == entries_view(v@).take(k as int),
        decreases v@.len() - k,
    {
        let ghost before = out@;
        proof {
            assert(decreases_to!(v => v@));
            assert(decreases_to!(v@ => v@[k as int]));
            assert(decreases_to!(v@[k as int] => v@[k as int].1));
        }
        let c = v[k].1.duplicate();
        out.push((v[k].0.clone(), c));
        assert(out@.drop_last() =~= before);
        assert(entries_view(v@).take(k + 1) =~= entries_view(v@).take(k as int).push(
            entries_view(v@)[k as int],
        ));
        k += 1;
    }
    assert(entries_view(v@).take(v@.len() as int) =~= entries_view(v@));
    out
}

} // verus!
