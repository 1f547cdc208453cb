use vstd::prelude::*;

verus! {

/// A field value: UTF-8 text or a signed 64-bit integer.
pub enum Value {
    Text(Vec<u8>),
    Int(i64),
}

/// The mathematical model of a field value.
pub enum SpecValue {
    Text(Seq<u8>),
    Int(int),
}

impl Value {
    pub open spec fn view(self) -> SpecValue {
        match self {
            Value::Text(s) => SpecValue::Text(s@),
            Value::Int(i) => SpecValue::Int(i as int),
        }
    }
}

/// A byte allowed in a field name: an ASCII letter, digit or underscore.
pub open spec fn is_key_byte(b: u8) -> bool {
    (48 <= b <= 57) || (65 <= b <= 90) || (97 <= b <= 122) || b == 95
}

pub open spec fn spec_key_wf(k: Seq<u8>) -> bool {
    k.len() > 0 && forall|j: int| 0 <= j < k.len() ==> is_key_byte(#[trigger] k[j])
}

/// The first value stored under `k`, if any.
pub open spec fn spec_lookup(fs: Seq<(Seq<u8>, SpecValue)>, k: Seq<u8>) -> Option<SpecValue>
    decreases fs.len(),
{
    if fs.len() == 0 {
        None
    } else if fs[0].0 == k {
        Some(fs[0].1)
    } else {
        spec_lookup(fs.subrange(1, fs.len() as int), k)
    }
}

/// Field names are mutually distinct and well formed.
pub open spec fn spec_fields_wf(fs: Seq<(Seq<u8>, SpecValue)>) -> bool {
    (forall|j: int| 0 <= j < fs.len() ==> spec_key_wf(#[trigger] fs[j].0)) && (forall|
        i: int,
        j: int,
    |
        0 <= i < j < fs.len() ==> (#[trigger] fs[i].0) != (#[trigger] fs[j].0))
}

/// An ordered mapping from field name to field value.
pub struct Record {
    fields: Vec<(Vec<u8>, Value)>,
}

impl View for Record {
    type V = Seq<(Seq<u8>, SpecValue)>;

    closed spec fn view(&self) -> Seq<(Seq<u8>, SpecValue)> {
        self.fields@.map_values(|f: (Vec<u8>, Value)| (f.0@, f.1.view()))
    }
}

/// Whether two byte strings hold the same bytes.
pub fn bytes_eq(a: &[u8], b: &[u8]) -> (r: bool)
    ensures
        r == (a@ == b@),
{
    if a.len() != b.len() {
        assert(a@ != b@);
        return false;
    }
    let mut i: usize = 0;
    while i < a.len()
        invariant
            i <= a@.len() == b@.len(),
            forall|j: int| 0 <= j < i ==> a@[j] == b@[j],
        decreases a@.len() - i,
    {
        if a[i] != b[i] {
            return false;
        }
        i = i + 1;
    }
    proof {
        assert(a@ =~= b@);
    }
    true
}

/// Whether one byte may stand in a field name.
pub fn key_byte(b: u8) -> (r: bool)
    ensures
        r == is_key_byte(b),
{
    (48 <= b && b <= 57) || (65 <= b && b <= 90) || (97 <= b && b <= 122) || b == 95
}

/// Whether every byte of `k` may stand in a field name.
pub fn key_wf(k: &[u8]) -> (r: bool)
    ensures
        r == spec_key_wf(k@),
{
    if k.len() == 0 {
        return false;
    }
    let mut i: usize = 0;
    while i < k.len()
        invariant
            i <= k@.len(),
            forall|j: int| 0 <= j < i ==> is_key_byte(#[trigger] k@[j]),
        decreases k@.len() - i,
    {
        let b = k[i];
        if !((48 <= b && b <= 57) || (65 <= b && b <= 90) || (97 <= b && b <= 122) || b == 95) {
            return false;
        }
        i = i + 1;
    }
    true
}

impl Record {
    pub open spec fn wf(&self) -> bool {
        spec_fields_wf(self@)
    }

    /// An empty record.
    pub fn new() -> (r: Record)
        ensures
            r@ == Seq::<(Seq<u8>, SpecValue)>::empty(),
            r.wf(),
    {
        let r = Record { fields: Vec::new() };
        proof {
            assert(r@ =~= Seq::<(Seq<u8>, SpecValue)>::empty());
        }
        r
    }

    pub fn len(&self) -> (n: usize)
        ensures
            n == self@.len(),
    {
        self.fields.len()
    }

    /// A record over the given fields, as they stand.
    pub(crate) fn from_fields(fields: Vec<(Vec<u8>, Value)>) -> (r: Record)
        ensures
            r@ == fields@.map_values(|f: (Vec<u8>, Value)| (f.0@, f.1.view())),
    {
        Record { fields }
    }

    /// The field at position `i`, in insertion order.
    pub fn field_at(&self, i: usize) -> (r: (&Vec<u8>, &Value))
        requires
            i < self@.len(),
        ensures
            r.0@ == self@[i as int].0,
            r.1.view() == self@[i as int].1,
    {
        let f = &self.fields[i];
        (&f.0, &f.1)
    }

    /// The position of the field named `k`, if present.
    fn find(&self, k: &[u8]) -> (r: Option<usize>)
        ensures
            r matches Some(j) ==> j < self@.len() && self@[j as int].0 == k@ && forall|i: int|
                0 <= i < j ==> (#[trigger] self@[i].0) != k@,
            r is None ==> forall|j: int| 0 <= j < self@.len() ==> (#[trigger] self@[j].0) != k@,
    {
        let mut i: usize = 0;
        while i < self.fields.len()
            invariant
                i <= self@.len() == self.fields@.len(),
                forall|j: int| 0 <= j < i ==> (#[trigger] self@[j].0) != k@,
            decreases self.fields@.len() - i,
        {
            if bytes_eq(self.fields[i].0.as_slice(), k) {
                return Some(i);
            }
            i = i + 1;
        }
        None
    }

    /// The value stored under `k`, if any.
    pub fn get(&self, k: &[u8]) -> (r: Option<&Value>)
        ensures
            match r {
                Some(v) => spec_lookup(self@, k@) == Some(v.view()),
                None => spec_lookup(self@, k@) is None,
            },
    {
        proof {
            lemma_lookup_by_index(self@, k@);
        }
        match self.find(k) {
            Some(j) => {
                proof {
                    lemma_first_index_lookup(self@, k@, j as int);
                }
                Some(&self.fields[j].1)
            },
            None => None,
        }
    }

    /// Stores `v` under `k`: replaces the value in place when `k` is
    /// present, else appends the field.
    pub fn insert(&mut self, k: Vec<u8>, v: Value)
        ensures
            final(self)@ == spec_insert_field(old(self)@, k@, v.view()),
            old(self).wf() && spec_key_wf(k@) ==> final(self).wf(),
            spec_lookup(final(self)@, k@) == Some(v.view()),
    {
        proof {
            lemma_lookup_by_index(old(self)@, k@);
        }
        let ghost pre = self@;
        match self.find(&k) {
            Some(j) => {
                proof {
                    lemma_first_index_lookup(pre, k@, j as int);
                }
                self.fields.set(j, (k, v));
                proof {
                    let ghost post = self@;
                    assert(post =~= pre.update(find_index(pre, k@).unwrap(), post[j as int]));
                    lemma_lookup_first(post, k@, j as int);
                }
            },
            None => {
                self.fields.push((k, v));
                proof {
                    let ghost post = self@;
                    assert(post =~= pre.push((k@, v.view())));
                    lemma_lookup_first(post, k@, pre.len() as int);
                }
            },
        }
    }

    /// Removes the field named `k`, returning its value.  The fields
    /// after it shift left by one place.
    pub fn take(&mut self, k: &[u8]) -> (r: Option<Value>)
        ensures
            match r {
                Some(v) => spec_lookup(old(self)@, k@) == Some(v.view()) && final(self)@ == match
                    find_index(old(self)@, k@) {
                    Some(j) => old(self)@.remove(j),
                    None => old(self)@,
                },
                None => spec_lookup(old(self)@, k@) is None && final(self)@ == old(self)@,
            },
            old(self).wf() ==> final(self).wf(),
    {
        proof {
            lemma_lookup_by_index(old(self)@, k@);
        }
        let ghost pre = self@;
        match self.find(k) {
            Some(j) => {
                proof {
                    lemma_first_index_lookup(pre, k@, j as int);
                }
                let f = self.fields.remove(j);
                proof {
                    assert(self@ =~= pre.remove(j as int));
                    if spec_fields_wf(pre) {
                        assert(spec_fields_wf(self@));
                    }
                }
                Some(f.1)
            },
            None => None,
        }
    }
}

/// What `insert` does: replace the value in place, or append.
pub open spec fn spec_insert_field(fs: Seq<(Seq<u8>, SpecValue)>, k: Seq<u8>, v: SpecValue) -> Seq<
    (Seq<u8>, SpecValue),
> {
    match find_index(fs, k) {
        Some(j) => fs.update(j, (k, v)),
        None => fs.push((k, v)),
    }
}

/// The position of the first field named `k`.
pub open spec fn find_index(fs: Seq<(Seq<u8>, SpecValue)>, k: Seq<u8>) -> Option<int>
    decreases fs.len(),
{
    if fs.len() == 0 {
        None
    } else if fs[0].0 == k {
        Some(0int)
    } else {
        match find_index(fs.subrange(1, fs.len() as int), k) {
            Some(j) => Some(j + 1),
            None => None,
        }
    }
}

/// `spec_lookup` and `find_index` agree.
pub proof fn lemma_lookup_by_index(fs: Seq<(Seq<u8>, SpecValue)>, k: Seq<u8>)
    ensures
        match find_index(fs, k) {
            Some(j) => 0 <= j < fs.len() && fs[j].0 == k && spec_lookup(fs, k) == Some(fs[j].1)
                && forall|i: int| 0 <= i < j ==> (#[trigger] fs[i].0) != k,
            None => spec_lookup(fs, k) is None && forall|i: int|
                0 <= i < fs.len() ==> (#[trigger] fs[i].0) != k,
        },
    decreases fs.len(),
{
    if fs.len() > 0 && fs[0].0 != k {
        let tl = fs.subrange(1, fs.len() as int);
        lemma_lookup_by_index(tl, k);
        match find_index(fs, k) {
            Some(j) => {
                assert(find_index(tl, k) == Some(j - 1));
                assert(fs[j] == tl[j - 1]);
                assert forall|i: int| 0 <= i < j implies (#[trigger] fs[i].0) != k by {
                    if i > 0 {
                        assert(fs[i] == tl[i - 1]);
                    }
                }
            },
            None => {
                assert forall|i: int| 0 <= i < fs.len() implies (#[trigger] fs[i].0) != k by {
                    if i > 0 {
                        assert(fs[i] == tl[i - 1]);
                    }
                }
            },
        }
    }
}

/// A position whose earlier fields all differ from `k` is the first.
pub proof fn lemma_first_index_lookup(fs: Seq<(Seq<u8>, SpecValue)>, k: Seq<u8>, j: int)
    requires
        0 <= j < fs.len(),
        fs[j].0 == k,
        forall|i: int| 0 <= i < j ==> (#[trigger] fs[i].0) != k,
    ensures
        find_index(fs, k) == Some(j),
        spec_lookup(fs, k) == Some(fs[j].1),
    decreases fs.len(),
{
    if j > 0 {
        let tl = fs.subrange(1, fs.len() as int);
        assert forall|i: int| 0 <= i < j - 1 implies (#[trigger] tl[i].0) != k by {
            assert(tl[i] == fs[i + 1]);
        }
        assert(tl[j - 1] == fs[j]);
        lemma_first_index_lookup(tl, k, j - 1);
    }
}

/// Inserting under a name makes it look up to the new value.
pub proof fn lemma_lookup_insert_same(fs: Seq<(Seq<u8>, SpecValue)>, k: Seq<u8>, v: SpecValue)
    ensures
        spec_lookup(spec_insert_field(fs, k, v), k) == Some(v),
{
    lemma_lookup_by_index(fs, k);
    match find_index(fs, k) {
        Some(j) => {
            let post = fs.update(j, (k, v));
            assert(forall|i: int| 0 <= i < j ==> post[i] == fs[i]);
            lemma_first_index_lookup(post, k, j);
        },
        None => {
            let post = fs.push((k, v));
            assert(forall|i: int| 0 <= i < fs.len() ==> post[i] == fs[i]);
            lemma_first_index_lookup(post, k, fs.len() as int);
        },
    }
}

/// Inserting under one name leaves every other name's value alone.
pub proof fn lemma_lookup_insert_other(
    fs: Seq<(Seq<u8>, SpecValue)>,
    k2: Seq<u8>,
    v: SpecValue,
    k1: Seq<u8>,
)
    requires
        k1 != k2,
    ensures
        spec_lookup(spec_insert_field(fs, k2, v), k1) == spec_lookup(fs, k1),
    decreases fs.len(),
{
    lemma_lookup_by_index(fs, k2);
    match find_index(fs, k2) {
        None => {
            lemma_lookup_push(fs, (k2, v), k1);
        },
        Some(j) => {
            lemma_lookup_update_other(fs, j, (k2, v), k1);
        },
    }
}

proof fn lemma_lookup_push(fs: Seq<(Seq<u8>, SpecValue)>, p: (Seq<u8>, SpecValue), k1: Seq<u8>)
    requires
        p.0 != k1,
    ensures
        spec_lookup(fs.push(p), k1) == spec_lookup(fs, k1),
    decreases fs.len(),
{
    let w = fs.push(p);
    if fs.len() == 0 {
        assert(w[0] == p);
        assert(w.subrange(1, w.len() as int) =~= Seq::<(Seq<u8>, SpecValue)>::empty());
        assert(spec_lookup(fs, k1) is None);
        assert(spec_lookup(w, k1) == spec_lookup(w.subrange(1, w.len() as int), k1));
        assert(spec_lookup(w.subrange(1, w.len() as int), k1) is None);
    } else {
        assert(w[0] == fs[0]);
        if fs[0].0 != k1 {
            assert(w.subrange(1, w.len() as int) =~= fs.subrange(1, fs.len() as int).push(p));
            lemma_lookup_push(fs.subrange(1, fs.len() as int), p, k1);
        }
    }
}

proof fn lemma_lookup_update_other(
    fs: Seq<(Seq<u8>, SpecValue)>,
    j: int,
    p: (Seq<u8>, SpecValue),
    k1: Seq<u8>,
)
    requires
        0 <= j < fs.len(),
        p.0 != k1,
        fs[j].0 == p.0,
    ensures
        spec_lookup(fs.update(j, p), k1) == spec_lookup(fs, k1),
    decreases fs.len(),
{
    let w = fs.update(j, p);
    if j == 0 {
        assert(w[0] == p);
        assert(fs[0].0 != k1);
        assert(w.subrange(1, w.len() as int) =~= fs.subrange(1, fs.len() as int));
    } else {
        assert(w[0] == fs[0]);
        if fs[0].0 != k1 {
            assert(w.subrange(1, w.len() as int) =~= fs.subrange(1, fs.len() as int).update(
                j - 1,
                p,
            ));
            lemma_lookup_update_other(fs.subrange(1, fs.len() as int), j - 1, p, k1);
        }
    }
}

proof fn lemma_lookup_first(fs: Seq<(Seq<u8>, SpecValue)>, k: Seq<u8>, j: int)
    requires
        0 <= j < fs.len(),
        fs[j].0 == k,
        forall|i: int| 0 <= i < j ==> (#[trigger] fs[i].0) != k,
    ensures
        spec_lookup(fs, k) == Some(fs[j].1),
{
    lemma_first_index_lookup(fs, k, j);
}

} // verus!
