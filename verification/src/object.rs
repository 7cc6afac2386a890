use vstd::prelude::*;


verus! {

broadcast use vstd::utf8::encode_utf8_decode_utf8;

/// A reference to an indirect object (e.g. `10 0 R`).
#[derive(Debug, Clone, Copy, PartialEq, Eq, Hash)]
pub struct ObjectId {
    pub object_number: u32,
    pub generation_number: u16,
}

/// An exact decimal number: `(-1)^negative * M / 10^scale`, where `M` is the
/// natural number written by `digits` (most significant first).
///
/// Normal form: every digit is below 10, `digits` has no leading zero,
/// a positive `scale` leaves no trailing zero, and zero is written with no
/// digits, scale 0 and a positive sign.
#[derive(Debug, Clone, PartialEq, Eq)]
pub struct PdfReal {
    pub negative: bool,
    pub digits: Vec<u8>,
    pub scale: usize,
}

pub struct RealModel {
    pub negative: bool,
    pub digits: Seq<u8>,
    pub scale: nat,
}

impl View for PdfReal {
    type V = RealModel;

    open spec fn view(&self) -> RealModel {
        RealModel { negative: self.negative, digits: self.digits@, scale: self.scale as nat }
    }
}

pub open spec fn all_digits_below_ten(d: Seq<u8>) -> bool {
    forall|i: int| 0 <= i < d.len() ==> #[trigger] d[i] < 10
}

pub open spec fn real_normal(r: RealModel) -> bool {
    &&& all_digits_below_ten(r.digits)
    &&& (r.digits.len() > 0 ==> r.digits[0] != 0)
    &&& (r.scale > 0 ==> r.digits.len() > 0 && r.digits[r.digits.len() - 1] != 0)
    &&& (r.digits.len() == 0 ==> !r.negative)
}

/// The dictionary of a PDF object: its entries in order, keys as character sequences.
pub type DictModel = Seq<(Seq<char>, ObjModel)>;

/// The mathematical value of a PDF object.
pub enum ObjModel {
    Null,
    Boolean(bool),
    Integer(i32),
    Real(RealModel),
    String(Seq<u8>),
    Name(Seq<char>),
    Array(Seq<ObjModel>),
    Dictionary(DictModel),
    Stream(DictModel, Seq<u8>),
    Reference(ObjectId),
}

/// A PDF dictionary: a mapping from names to objects.
///
/// Entries are kept in insertion order; a key is looked up at its first occurrence,
/// and `insert` replaces that occurrence, so a dictionary built by `new` and
/// `insert` never holds a key twice.
#[derive(Debug, PartialEq)]
pub struct PdfDictionary {
    pub entries: Vec<(String, PdfObject)>,
}

/// A PDF stream: a dictionary and the bytes it describes.
#[derive(Debug, PartialEq)]
pub struct PdfStream {
    pub dict: PdfDictionary,
    pub data: Vec<u8>,
}

/// The core syntax tree of any PDF primitive.
#[derive(Debug, PartialEq)]
pub enum PdfObject {
    /// The null object.
    Null,
    /// A boolean value (`true` or `false`).
    Boolean(bool),
    /// An integer value.
    Integer(i32),
    /// A real value, held exactly as the decimal that was written.
    Real(PdfReal),
    /// A string (e.g. `(Hello World)` or `<48656C6C6F>`).
    String(Vec<u8>),
    /// A name (e.g. `/Type`).
    Name(String),
    /// An array of objects.
    Array(Vec<PdfObject>),
    /// A dictionary of objects.
    Dictionary(PdfDictionary),
    /// A stream of bytes with the dictionary describing it.
    Stream(PdfStream),
    /// A reference to an indirect object (e.g. `12 0 R`).
    Reference(ObjectId),
}

pub open spec fn objects_model(s: Seq<PdfObject>) -> Seq<ObjModel>
    decreases s,
{
    if s.len() == 0 {
        Seq::empty()
    } else {
        objects_model(s.subrange(0, s.len() - 1)).push(object_model(s[s.len() - 1]))
    }
}

pub open spec fn entries_model(s: Seq<(String, PdfObject)>) -> DictModel
    decreases s,
{
    if s.len() == 0 {
        Seq::empty()
    } else {
        entries_model(s.subrange(0, s.len() - 1)).push(
            (s[s.len() - 1].0@, object_model(s[s.len() - 1].1)),
        )
    }
}

pub open spec fn object_model(o: PdfObject) -> ObjModel
    decreases o,
{
    match o {
        PdfObject::Null => ObjModel::Null,
        PdfObject::Boolean(b) => ObjModel::Boolean(b),
        PdfObject::Integer(i) => ObjModel::Integer(i),
        PdfObject::Real(r) => ObjModel::Real(r@),
        PdfObject::String(v) => ObjModel::String(v@),
        PdfObject::Name(n) => ObjModel::Name(n@),
        PdfObject::Array(v) => ObjModel::Array(objects_model(v@)),
        PdfObject::Dictionary(d) => ObjModel::Dictionary(entries_model(d.entries@)),
        PdfObject::Stream(s) => ObjModel::Stream(entries_model(s.dict.entries@), s.data@),
        PdfObject::Reference(id) => ObjModel::Reference(id),
    }
}

impl View for PdfObject {
    type V = ObjModel;

    open spec fn view(&self) -> ObjModel {
        object_model(*self)
    }
}

impl View for PdfDictionary {
    type V = DictModel;

    open spec fn view(&self) -> DictModel {
        entries_model(self.entries@)
    }
}

pub proof fn lemma_objects_model(s: Seq<PdfObject>)
    ensures
        objects_model(s).len() == s.len(),
        forall|i: int| 0 <= i < s.len() ==> #[trigger] objects_model(s)[i] == object_model(s[i]),
    decreases s.len(),
{
    if s.len() > 0 {
        let p = s.subrange(0, s.len() - 1);
        lemma_objects_model(p);
        assert forall|i: int| 0 <= i < s.len() implies #[trigger] objects_model(s)[i]
            == object_model(s[i]) by {
            if i < s.len() - 1 {
                assert(p[i] == s[i]);
            }
        }
    }
}

pub proof fn lemma_entries_model(s: Seq<(String, PdfObject)>)
    ensures
        entries_model(s).len() == s.len(),
        forall|i: int|
            0 <= i < s.len() ==> #[trigger] entries_model(s)[i] == (s[i].0@, object_model(s[i].1)),
    decreases s.len(),
{
    if s.len() > 0 {
        let p = s.subrange(0, s.len() - 1);
        lemma_entries_model(p);
        assert forall|i: int| 0 <= i < s.len() implies #[trigger] entries_model(s)[i] == (
        s[i].0@, object_model(s[i].1)) by {
            if i < s.len() - 1 {
                assert(p[i] == s[i]);
            }
        }
    }
}

pub proof fn lemma_objects_model_push(s: Seq<PdfObject>, o: PdfObject)
    ensures
        objects_model(s.push(o)) == objects_model(s).push(object_model(o)),
{
    assert(s.push(o).subrange(0, s.len() as int) =~= s);
}

pub proof fn lemma_entries_model_push(s: Seq<(String, PdfObject)>, e: (String, PdfObject))
    ensures
        entries_model(s.push(e)) == entries_model(s).push((e.0@, object_model(e.1))),
{
    assert(s.push(e).subrange(0, s.len() as int) =~= s);
}

/// The position of the first entry with the given key, if there is one.
pub open spec fn dict_key_index(d: DictModel, key: Seq<char>) -> Option<int>
    decreases d.len(),
{
    if d.len() == 0 {
        None
    } else {
        match dict_key_index(d.subrange(0, d.len() - 1), key) {
            Some(i) => Some(i),
            None => if d[d.len() - 1].0 == key {
                Some(d.len() - 1)
            } else {
                None
            },
        }
    }
}

/// `dict_key_index` finds the least position holding the key.
pub proof fn lemma_dict_key_index_spec(d: DictModel, key: Seq<char>)
    ensures
        match dict_key_index(d, key) {
            Some(i) => 0 <= i < d.len() && d[i].0 == key && forall|j: int|
                0 <= j < i ==> #[trigger] d[j].0 != key,
            None => forall|j: int| 0 <= j < d.len() ==> #[trigger] d[j].0 != key,
        },
    decreases d.len(),
{
    if d.len() > 0 {
        let p = d.subrange(0, d.len() - 1);
        lemma_dict_key_index_spec(p, key);
        match dict_key_index(p, key) {
            Some(i) => {
                assert forall|j: int| 0 <= j < i implies #[trigger] d[j].0 != key by {
                    assert(p[j] == d[j]);
                }
                assert(p[i] == d[i]);
            },
            None => {
                assert forall|j: int| 0 <= j < d.len() - 1 implies #[trigger] d[j].0 != key by {
                    assert(p[j] == d[j]);
                }
            },
        }
    }
}

/// The value a dictionary gives for a key.
pub open spec fn dict_get(d: DictModel, key: Seq<char>) -> Option<ObjModel> {
    match dict_key_index(d, key) {
        Some(i) => Some(d[i].1),
        None => None,
    }
}

/// The dictionary after `insert`: the first entry with the key gets the new
/// value, or a new entry is appended.
pub open spec fn dict_insert(d: DictModel, key: Seq<char>, value: ObjModel) -> DictModel {
    match dict_key_index(d, key) {
        Some(i) => d.update(i, (key, value)),
        None => d.push((key, value)),
    }
}

pub open spec fn dict_has_distinct_keys(d: DictModel) -> bool {
    forall|i: int, j: int| 0 <= i < j < d.len() ==> #[trigger] d[i].0 != #[trigger] d[j].0
}

/// The first entry with a key is the one found when there is a least such entry.
pub proof fn lemma_dict_key_index(d: DictModel, key: Seq<char>, i: int)
    requires
        0 <= i < d.len(),
        d[i].0 == key,
        forall|j: int| 0 <= j < i ==> #[trigger] d[j].0 != key,
    ensures
        dict_key_index(d, key) == Some(i),
{
    lemma_dict_key_index_spec(d, key);
    match dict_key_index(d, key) {
        Some(k) => {
            if k < i {
                assert(d[k].0 != key);
            }
            if i < k {
                assert(d[i].0 != key);
            }
        },
        None => {
            assert(d[i].0 != key);
        },
    }
}

/// Reading a key right after inserting it gives the inserted value.
pub proof fn law_dict_get_after_insert(d: DictModel, key: Seq<char>, value: ObjModel)
    ensures
        dict_get(dict_insert(d, key, value), key) == Some(value),
{
    let n = dict_insert(d, key, value);
    lemma_dict_key_index_spec(d, key);
    match dict_key_index(d, key) {
        Some(i) => {
            assert forall|j: int| 0 <= j < i implies #[trigger] n[j].0 != key by {
                assert(n[j] == d[j]);
            }
            lemma_dict_key_index(n, key, i);
        },
        None => {
            assert forall|j: int| 0 <= j < d.len() implies #[trigger] n[j].0 != key by {
                assert(n[j] == d[j]);
            }
            lemma_dict_key_index(n, key, d.len() as int);
        },
    }
}

/// Inserting one key leaves what every other key gives unchanged.
pub proof fn law_dict_insert_keeps_other_keys(
    d: DictModel,
    key: Seq<char>,
    value: ObjModel,
    other: Seq<char>,
)
    requires
        other != key,
    ensures
        dict_get(dict_insert(d, key, value), other) == dict_get(d, other),
{
    let n = dict_insert(d, key, value);
    lemma_dict_key_index_spec(d, key);
    lemma_dict_key_index_spec(d, other);
    lemma_dict_key_index_spec(n, other);
    assert forall|j: int| 0 <= j < d.len() implies #[trigger] n[j].0 == other <==> d[j].0 == other by {
        match dict_key_index(d, key) {
            Some(i) => {
                if j != i {
                    assert(n[j] == d[j]);
                }
            },
            None => {
                assert(n[j] == d[j]);
            },
        }
    }
    match dict_key_index(d, other) {
        Some(i) => {
            assert(n[i].0 == other);
            assert(forall|j: int| 0 <= j < i ==> #[trigger] n[j].0 != other);
            lemma_dict_key_index(n, other, i);
            match dict_key_index(d, key) {
                Some(k) => {
                    assert(k != i);
                    assert(n[i] == d[i]);
                },
                None => {
                    assert(n[i] == d[i]);
                },
            }
        },
        None => {
            match dict_key_index(n, other) {
                Some(j) => {
                    if j < d.len() {
                        assert(d[j].0 != other);
                    } else {
                        assert(n[j].0 == key);
                    }
                },
                None => {},
            }
        },
    }
}

/// Inserting into a dictionary whose keys are distinct keeps them distinct.
pub proof fn law_dict_insert_keeps_keys_distinct(d: DictModel, key: Seq<char>, value: ObjModel)
    requires
        dict_has_distinct_keys(d),
    ensures
        dict_has_distinct_keys(dict_insert(d, key, value)),
{
    let n = dict_insert(d, key, value);
    lemma_dict_key_index_spec(d, key);
    match dict_key_index(d, key) {
        Some(i) => {
            assert forall|a: int, b: int| 0 <= a < b < n.len() implies #[trigger] n[a].0
                != #[trigger] n[b].0 by {
                assert(d[a].0 != d[b].0);
            }
        },
        None => {
            assert forall|a: int, b: int| 0 <= a < b < n.len() implies #[trigger] n[a].0
                != #[trigger] n[b].0 by {
                if b == d.len() {
                    assert(d[a].0 != key);
                } else {
                    assert(d[a].0 != d[b].0);
                }
            }
        },
    }
}

/// Whether two strings hold the same characters, compared through their UTF-8 bytes.
pub fn str_equal(a: &str, b: &str) -> (res: bool)
    ensures
        res == (a@ == b@),
{
    let x = a.as_bytes();
    let y = b.as_bytes();
    proof {
        vstd::utf8::encode_utf8_decode_utf8(a@);
        vstd::utf8::encode_utf8_decode_utf8(b@);
    }
    if x.len() != y.len() {
        return false;
    }
    let mut i: usize = 0;
    while i < x.len()
        invariant
            x@.len() == y@.len(),
            x@ == vstd::utf8::encode_utf8(a@),
            y@ == vstd::utf8::encode_utf8(b@),
            i <= x@.len(),
            forall|j: int| 0 <= j < i ==> x@[j] == y@[j],
        decreases x@.len() - i,
    {
        if x[i] != y[i] {
            return false;
        }
        i = i + 1;
    }
    assert(x@ =~= y@);
    true
}

impl PdfDictionary {
    /// An empty dictionary.
    pub fn new() -> (res: Self)
        ensures
            res@ == Seq::<(Seq<char>, ObjModel)>::empty(),
    {
        PdfDictionary { entries: Vec::new() }
    }

    /// The position of the first entry with the given key.
    pub fn find(&self, key: &str) -> (res: Option<usize>)
        ensures
            match res {
                Some(i) => dict_key_index(self@, key@) == Some(i as int) && i < self.entries@.len()
                    && self.entries@.len() == self@.len(),
                None => dict_key_index(self@, key@) is None,
            },
    {
        proof {
            lemma_entries_model(self.entries@);
        }
        let mut i: usize = 0;
        while i < self.entries.len()
            invariant
                i <= self.entries@.len(),
                self@.len() == self.entries@.len(),
                forall|j: int| 0 <= j < i ==> #[trigger] self@[j].0 != key@,
                forall|j: int|
                    0 <= j < self.entries@.len() ==> #[trigger] self@[j] == (
                    self.entries@[j].0@, object_model(self.entries@[j].1)),
            decreases self.entries@.len() - i,
        {
            if str_equal(self.entries[i].0.as_str(), key) {
                proof {
                    lemma_dict_key_index(self@, key@, i as int);
                }
                return Some(i);
            }
            i = i + 1;
        }
        proof {
            lemma_dict_key_index_spec(self@, key@);
        }
        None
    }

    /// Sets the value of a key: the entry holding it is updated, or a new entry is added.
    pub fn insert(&mut self, key: &str, value: PdfObject)
        ensures
            final(self)@ == dict_insert(old(self)@, key@, value@),
    {
        let k = String::from_str(key);
        self.insert_string(k, value);
    }

    /// `insert` with a key that is already an owned string.
    pub fn insert_string(&mut self, key: String, value: PdfObject)
        ensures
            final(self)@ == dict_insert(old(self)@, key@, value@),
    {
        let idx = self.find(key.as_str());
        proof {
            lemma_entries_model(self.entries@);
        }
        match idx {
            Some(i) => {
                let ghost old_entries = self.entries@;
                self.entries.set(i, (key, value));
                proof {
                    lemma_entries_model(self.entries@);
                    assert(self@ =~= old(self)@.update(i as int, (key@, value@)));
                }
            },
            None => {
                let ghost old_entries = self.entries@;
                self.entries.push((key, value));
                proof {
                    lemma_entries_model_push(old_entries, (key, value));
                }
            },
        }
    }

    /// The value stored for a key.
    pub fn get(&self, key: &str) -> (res: Option<&PdfObject>)
        ensures
            match res {
                Some(v) => dict_get(self@, key@) == Some(v@),
                None => dict_get(self@, key@) is None,
            },
    {
        proof {
            lemma_entries_model(self.entries@);
        }
        match self.find(key) {
            Some(i) => Some(&self.entries[i].1),
            None => None,
        }
    }

    /// Whether some entry has the key.
    pub fn contains_key(&self, key: &str) -> (res: bool)
        ensures
            res == (dict_get(self@, key@) is Some),
    {
        self.find(key).is_some()
    }

    /// Removes the entry holding a key, returning its value.
    pub fn remove(&mut self, key: &str) -> (res: Option<PdfObject>)
        ensures
            match dict_key_index(old(self)@, key@) {
                Some(i) => final(self)@ == old(self)@.remove(i) && res is Some && res->0@ == old(
                    self,
                )@[i].1,
                None => final(self)@ == old(self)@ && res is None,
            },
    {
        proof {
            lemma_entries_model(self.entries@);
        }
        match self.find(key) {
            Some(i) => {
                let (_, v) = self.entries.remove(i);
                proof {
                    lemma_entries_model(self.entries@);
                    assert(self@ =~= old(self)@.remove(i as int));
                }
                Some(v)
            },
            None => None,
        }
    }

    /// The number of entries.
    pub fn len(&self) -> (res: usize)
        ensures
            res == self@.len(),
    {
        proof {
            lemma_entries_model(self.entries@);
        }
        self.entries.len()
    }
}

// ---------------------------------------------------------------- copies

/// A copy of a real.
pub fn copy_real(r: &PdfReal) -> (res: PdfReal)
    ensures
        res@ == r@,
{
    PdfReal { negative: r.negative, digits: r.digits.clone(), scale: r.scale }
}

/// A deep copy of an object.
pub fn copy_object(obj: &PdfObject) -> (res: PdfObject)
    ensures
        res@ == obj@,
    decreases obj,
{
    match obj {
        PdfObject::Null => PdfObject::Null,
        PdfObject::Boolean(b) => PdfObject::Boolean(*b),
        PdfObject::Integer(i) => PdfObject::Integer(*i),
        PdfObject::Real(r) => PdfObject::Real(copy_real(r)),
        PdfObject::String(v) => PdfObject::String(v.clone()),
        PdfObject::Name(n) => PdfObject::Name(n.clone()),
        PdfObject::Array(arr) => {
            let mut out: Vec<PdfObject> = Vec::new();
            let mut i: usize = 0;
            proof {
                lemma_objects_model(arr@);
            }
            while i < arr.len()
                invariant
                    *obj == PdfObject::Array(*arr),
                    i <= arr@.len(),
                    out@.len() == i,
                    forall|k: int| 0 <= k < i ==> #[trigger] out@[k]@ == arr@[k]@,
                decreases arr@.len() - i,
            {
                assert(decreases_to!(*obj => obj->Array_0));
                assert(decreases_to!(*arr => arr@[i as int]));
                let c = copy_object(&arr[i]);
                out.push(c);
                i = i + 1;
            }
            proof {
                lemma_objects_model(out@);
                lemma_objects_model(arr@);
                assert forall|k: int| 0 <= k < out@.len() implies #[trigger] objects_model(out@)[k]
                    == objects_model(arr@)[k] by {
                    assert(out@[k]@ == arr@[k]@);
                }
                assert(objects_model(out@) =~= objects_model(arr@));
            }
            PdfObject::Array(out)
        },
        PdfObject::Dictionary(d) => PdfObject::Dictionary(copy_dictionary(d)),
        PdfObject::Stream(s) => PdfObject::Stream(
            PdfStream { dict: copy_dictionary(&s.dict), data: s.data.clone() },
        ),
        PdfObject::Reference(id) => PdfObject::Reference(*id),
    }
}

/// A deep copy of a dictionary.
pub fn copy_dictionary(dict: &PdfDictionary) -> (res: PdfDictionary)
    ensures
        res@ == dict@,
    decreases dict,
{
    let mut out: Vec<(String, PdfObject)> = Vec::new();
    let mut i: usize = 0;
    proof {
        lemma_entries_model(dict.entries@);
    }
    while i < dict.entries.len()
        invariant
            i <= dict.entries@.len(),
            out@.len() == i,
            forall|k: int|
                0 <= k < i ==> (#[trigger] out@[k]).0@ == dict.entries@[k].0@ && out@[k].1@
                    == dict.entries@[k].1@,
        decreases dict.entries@.len() - i,
    {
        let e = &dict.entries[i];
        let v = copy_object(&e.1);
        out.push((e.0.clone(), v));
        i = i + 1;
    }
    proof {
        lemma_entries_model(out@);
        lemma_entries_model(dict.entries@);
        assert(entries_model(out@) =~= entries_model(dict.entries@));
    }
    PdfDictionary { entries: out }
}

} // verus!
