//! The JSON values that archive metadata is made of.
use crate::order::{below, is_below};
use crate::text::same_text;
use vstd::prelude::*;
use vstd::utf8::encode_utf8;

verus! {

/// A JSON value. The fields of an object stand in the order of their names.
#[derive(Debug)]
pub enum Json {
    Null,
    Bool(bool),
    Number(u64),
    /// A number that is not a nonnegative integer, as it is written.
    Other(String),
    Text(String),
    List(Vec<Json>),
    Object(Vec<Field>),
}

/// A named value.
#[derive(Debug)]
pub struct Field {
    pub name: String,
    pub value: Json,
}

/// A JSON value as a mathematical value.
pub enum JsonView {
    Null,
    Bool(bool),
    Number(u64),
    Other(Seq<char>),
    Text(Seq<char>),
    List(Seq<JsonView>),
    Object(Seq<(Seq<char>, JsonView)>),
}

impl View for Json {
    type V = JsonView;

    open spec fn view(&self) -> JsonView {
        view_of(*self)
    }
}

/// What a JSON value stands for.
pub open spec fn view_of(v: Json) -> JsonView
    decreases v,
{
        match v {
            Json::Null => JsonView::Null,
            Json::Bool(b) => JsonView::Bool(b),
            Json::Number(n) => JsonView::Number(n),
            Json::Other(s) => JsonView::Other(s@),
            Json::Text(s) => JsonView::Text(s@),
            Json::List(l) => JsonView::List(
                Seq::new(
                    l@.len(),
                    |i: int|
                        if 0 <= i < l@.len() {
                            view_of(l@[i])
                        } else {
                            arbitrary()
                        },
                ),
            ),
            Json::Object(o) => JsonView::Object(
                Seq::new(
                    o@.len(),
                    |i: int|
                        if 0 <= i < o@.len() {
                            (o@[i].name@, view_of(o@[i].value))
                        } else {
                            arbitrary()
                        },
                ),
            ),
        }
}

/// The position of the first field called `k`.
pub open spec fn find(o: Seq<(Seq<char>, JsonView)>, k: Seq<char>) -> Option<int>
    decreases o.len(),
{
    if o.len() == 0 {
        None
    } else {
        match find(o.drop_last(), k) {
            Some(i) => Some(i),
            None => if o.last().0 == k {
                Some(o.len() - 1)
            } else {
                None
            },
        }
    }
}

/// Where a field called `k` goes: before the first field whose name sorts after it.
pub open spec fn place(o: Seq<(Seq<char>, JsonView)>, k: Seq<char>) -> int
    decreases o.len(),
{
    if o.len() == 0 {
        0
    } else if place(o.drop_last(), k) < o.len() - 1 {
        place(o.drop_last(), k)
    } else if below(encode_utf8(k), encode_utf8(o.last().0)) {
        o.len() - 1
    } else {
        o.len() as int
    }
}

impl JsonView {
    /// The field called `k`; null where there is none.
    pub open spec fn at(self, k: Seq<char>) -> JsonView {
        match self {
            JsonView::Object(o) => match find(o, k) {
                Some(i) => o[i].1,
                None => JsonView::Null,
            },
            _ => JsonView::Null,
        }
    }

    /// The value with the field called `k` set to `v`.
    pub open spec fn with(self, k: Seq<char>, v: JsonView) -> JsonView {
        match self {
            JsonView::Object(o) => match find(o, k) {
                Some(i) => JsonView::Object(o.update(i, (o[i].0, v))),
                None => JsonView::Object(o.insert(place(o, k), (k, v))),
            },
            _ => self,
        }
    }
}

proof fn lemma_find(o: Seq<(Seq<char>, JsonView)>, k: Seq<char>)
    ensures
        match find(o, k) {
            Some(i) => 0 <= i < o.len() && o[i].0 == k && forall|j: int|
                0 <= j < i ==> (#[trigger] o[j]).0 != k,
            None => forall|j: int| 0 <= j < o.len() ==> (#[trigger] o[j]).0 != k,
        },
    decreases o.len(),
{
    if o.len() > 0 {
        let head = o.drop_last();
        lemma_find(head, k);
        assert forall|j: int| 0 <= j < head.len() implies head[j] == o[j] by {}
        match find(head, k) {
            Some(i) => {
                assert forall|j: int| 0 <= j < i implies (#[trigger] o[j]).0 != k by {
                    assert(head[j].0 != k);
                }
            },
            None => {
                assert forall|j: int| 0 <= j < o.len() - 1 implies (#[trigger] o[j]).0 != k by {
                    assert(head[j].0 != k);
                }
            },
        }
    }
}

/// `find` gives the first field called `k`, wherever it stands.
proof fn lemma_find_is(o: Seq<(Seq<char>, JsonView)>, k: Seq<char>, i: int)
    requires
        0 <= i < o.len(),
        o[i].0 == k,
        forall|j: int| 0 <= j < i ==> (#[trigger] o[j]).0 != k,
    ensures
        find(o, k) == Some(i),
{
    lemma_find(o, k);
    match find(o, k) {
        Some(j) => {
            if j < i {
                assert(o[j].0 != k);
            } else if i < j {
                assert(o[i].0 != k);
            }
        },
        None => {
            assert(o[i].0 != k);
        },
    }
}

proof fn lemma_place(o: Seq<(Seq<char>, JsonView)>, k: Seq<char>)
    ensures
        0 <= place(o, k) <= o.len(),
        forall|j: int|
            0 <= j < place(o, k) ==> !below(encode_utf8(k), encode_utf8((#[trigger] o[j]).0)),
        place(o, k) < o.len() ==> below(encode_utf8(k), encode_utf8(o[place(o, k)].0)),
    decreases o.len(),
{
    if o.len() > 0 {
        let head = o.drop_last();
        lemma_place(head, k);
        assert forall|j: int| 0 <= j < head.len() implies head[j] == o[j] by {}
        assert forall|j: int| 0 <= j < place(o, k) implies !below(
            encode_utf8(k),
            encode_utf8((#[trigger] o[j]).0),
        ) by {
            if j < o.len() - 1 {
                assert(o[j] == head[j]);
            }
        }
    }
}

/// Reading a field that was set gives what it was set to, and leaves every other field.
pub proof fn lemma_set_then_get(v: JsonView, k: Seq<char>, x: JsonView, other: Seq<char>)
    requires
        v is Object,
    ensures
        v.with(k, x).at(k) == x,
        other != k ==> v.with(k, x).at(other) == v.at(other),
        v.with(k, x) is Object,
{
    let o = v->Object_0;
    let n = v.with(k, x)->Object_0;
    lemma_find(o, k);
    lemma_find(o, other);
    match find(o, k) {
        Some(i) => {
            assert forall|j: int| 0 <= j < i implies (#[trigger] n[j]).0 != k by {
                assert(o[j].0 != k);
            }
            lemma_find_is(n, k, i);
            if other != k {
                match find(o, other) {
                    Some(j) => {
                        assert forall|m: int| 0 <= m < j implies (#[trigger] n[m]).0 != other by {
                            assert(o[m].0 != other);
                        }
                        lemma_find_is(n, other, j);
                    },
                    None => {
                        lemma_find(n, other);
                        if find(n, other) is Some {
                            let j = find(n, other).unwrap();
                            assert(o[j].0 == n[j].0);
                        }
                    },
                }
            }
        },
        None => {
            let p = place(o, k);
            lemma_place(o, k);
            assert forall|j: int| 0 <= j < p implies (#[trigger] n[j]).0 != k by {
                assert(n[j] == o[j]);
            }
            lemma_find_is(n, k, p);
            if other != k {
                match find(o, other) {
                    Some(j) => {
                        let m = if j < p {
                            j
                        } else {
                            j + 1
                        };
                        assert forall|t: int| 0 <= t < m implies (#[trigger] n[t]).0 != other by {
                            if t < p {
                                assert(n[t] == o[t]);
                            } else if t > p {
                                assert(n[t] == o[t - 1]);
                            }
                        }
                        assert(n[m] == o[j]);
                        lemma_find_is(n, other, m);
                    },
                    None => {
                        lemma_find(n, other);
                        if find(n, other) is Some {
                            let m = find(n, other).unwrap();
                            if m < p {
                                assert(n[m] == o[m]);
                            } else if m > p {
                                assert(n[m] == o[m - 1]);
                            }
                        }
                    },
                }
            }
        },
    }
}

pub open spec fn list_view(l: Seq<Json>) -> Seq<JsonView> {
    Seq::new(l.len(), |i: int| l[i]@)
}

pub open spec fn fields_view(o: Seq<Field>) -> Seq<(Seq<char>, JsonView)> {
    Seq::new(o.len(), |i: int| (o[i].name@, o[i].value@))
}

/// The parts of a JSON value as its view has them.
pub proof fn lemma_views(v: Json)
    ensures
        v matches Json::List(l) ==> v@ == JsonView::List(list_view(l@)),
        v matches Json::Object(o) ==> v@ == JsonView::Object(fields_view(o@)),
{
    reveal_with_fuel(view_of, 2);
    match v {
        Json::List(l) => {
            assert(v@->List_0 =~= list_view(l@));
        },
        Json::Object(o) => {
            assert(v@->Object_0 =~= fields_view(o@));
        },
        _ => {},
    }
}

impl Json {
    /// The same value again.
    pub fn copy(&self) -> (r: Json)
        ensures
            r@ == self@,
        decreases *self,
    {
        proof {
            lemma_views(*self);
        }
        match self {
            Json::Null => Json::Null,
            Json::Bool(b) => Json::Bool(*b),
            Json::Number(n) => Json::Number(*n),
            Json::Other(s) => Json::Other(s.clone()),
            Json::Text(s) => Json::Text(s.clone()),
            Json::List(l) => {
                let mut out: Vec<Json> = Vec::new();
                let mut i: usize = 0;
                while i < l.len()
                    invariant
                        i <= l@.len(),
                        out@.len() == i,
                        forall|j: int| 0 <= j < i ==> (#[trigger] out@[j])@ == l@[j]@,
                        decreases_to!(*self => l@),
                    decreases l@.len() - i,
                {
                    out.push(l[i].copy());
                    i += 1;
                }
                let r = Json::List(out);
                proof {
                    lemma_views(r);
                    assert(list_view(out@) =~= list_view(l@));
                }
                r
            },
            Json::Object(o) => {
                let mut out: Vec<Field> = Vec::new();
                let mut i: usize = 0;
                while i < o.len()
                    invariant
                        i <= o@.len(),
                        out@.len() == i,
                        forall|j: int|
                            0 <= j < i ==> (#[trigger] out@[j]).name@ == o@[j].name@
                                && out@[j].value@ == o@[j].value@,
                        decreases_to!(*self => o@),
                    decreases o@.len() - i,
                {
                    out.push(Field { name: o[i].name.clone(), value: o[i].value.copy() });
                    i += 1;
                }
                let r = Json::Object(out);
                proof {
                    lemma_views(r);
                    assert(fields_view(out@) =~= fields_view(o@));
                }
                r
            },
        }
    }

    /// Two values are the same.
    pub fn same(&self, other: &Json) -> (r: bool)
        ensures
            r == (self@ == other@),
        decreases *self,
    {
        proof {
            lemma_views(*self);
            lemma_views(*other);
        }
        match (self, other) {
            (Json::Null, Json::Null) => true,
            (Json::Bool(a), Json::Bool(b)) => *a == *b,
            (Json::Number(a), Json::Number(b)) => *a == *b,
            (Json::Other(a), Json::Other(b)) => same_text(a.as_str(), b.as_str()),
            (Json::Text(a), Json::Text(b)) => same_text(a.as_str(), b.as_str()),
            (Json::List(a), Json::List(b)) => {
                let ghost va = list_view(a@);
                let ghost vb = list_view(b@);
                if a.len() != b.len() {
                    proof {
                        assert(va.len() != vb.len());
                    }
                    return false;
                }
                let mut i: usize = 0;
                while i < a.len()
                    invariant
                        i <= a@.len() == b@.len(),
                        va == list_view(a@),
                        vb == list_view(b@),
                        self@ == JsonView::List(va),
                        other@ == JsonView::List(vb),
                        forall|j: int| 0 <= j < i ==> #[trigger] va[j] == vb[j],
                        decreases_to!(*self => a@),
                    decreases a@.len() - i,
                {
                    if !a[i].same(&b[i]) {
                        proof {
                            assert(va[i as int] != vb[i as int]);
                        }
                        return false;
                    }
                    i += 1;
                }
                proof {
                    assert(va =~= vb);
                }
                true
            },
            (Json::Object(a), Json::Object(b)) => {
                let ghost va = fields_view(a@);
                let ghost vb = fields_view(b@);
                if a.len() != b.len() {
                    proof {
                        assert(va.len() != vb.len());
                    }
                    return false;
                }
                let mut i: usize = 0;
                while i < a.len()
                    invariant
                        i <= a@.len() == b@.len(),
                        va == fields_view(a@),
                        vb == fields_view(b@),
                        self@ == JsonView::Object(va),
                        other@ == JsonView::Object(vb),
                        forall|j: int| 0 <= j < i ==> #[trigger] va[j] == vb[j],
                        decreases_to!(*self => a@),
                    decreases a@.len() - i,
                {
                    if !same_text(a[i].name.as_str(), b[i].name.as_str()) || !a[i].value.same(
                        &b[i].value,
                    ) {
                        proof {
                            assert(va[i as int] != vb[i as int]);
                        }
                        return false;
                    }
                    i += 1;
                }
                proof {
                    assert(va =~= vb);
                }
                true
            },
            _ => false,
        }
    }

    fn position(o: &Vec<Field>, k: &str) -> (r: Option<usize>)
        ensures
            match r {
                Some(i) => find(fields_view(o@), k@) == Some(i as int) && i < o@.len(),
                None => find(fields_view(o@), k@) is None,
            },
    {
        let ghost v = fields_view(o@);
        let mut i: usize = 0;
        while i < o.len()
            invariant
                v == fields_view(o@),
                i <= o@.len(),
                forall|j: int| 0 <= j < i ==> (#[trigger] v[j]).0 != k@,
            decreases o@.len() - i,
        {
            if same_text(o[i].name.as_str(), k) {
                proof {
                    lemma_find_is(v, k@, i as int);
                }
                return Some(i);
            }
            i += 1;
        }
        proof {
            lemma_find(v, k@);
        }
        None
    }

    /// The field called `k`, if there is one.
    pub fn get(&self, k: &str) -> (r: Option<&Json>)
        ensures
            match r {
                Some(v) => v@ == self@.at(k@),
                None => self@.at(k@) == JsonView::Null,
            },
    {
        proof {
            lemma_views(*self);
        }
        match self {
            Json::Object(o) => match Json::position(o, k) {
                Some(i) => Some(&o[i].value),
                None => None,
            },
            _ => None,
        }
    }

    /// Sets the field called `k`.
    pub fn set(&mut self, k: &str, v: Json)
        requires
            old(self)@ is Object,
        ensures
            final(self)@ == old(self)@.with(k@, v@),
            final(self)@ is Object,
    {
        let ghost before = self@;
        proof {
            lemma_views(*self);
        }
        match self {
            Json::Object(o) => {
                let ghost was = fields_view(o@);
                match Json::position(o, k) {
                    Some(i) => {
                        let name = o[i].name.clone();
                        o[i] = Field { name, value: v };
                        proof {
                            assert(fields_view(o@) =~= was.update(i as int, (was[i as int].0, v@)));
                        }
                    },
                    None => {
                        let mut p: usize = 0;
                        proof {
                            lemma_place(was, k@);
                        }
                        while p < o.len() && !is_below(k.as_bytes(), o[p].name.as_str().as_bytes())
                            invariant
                                was == fields_view(o@),
                                p <= o@.len(),
                                0 <= place(was, k@) <= was.len(),
                                place(was, k@) < was.len() ==> below(
                                    encode_utf8(k@),
                                    encode_utf8(was[place(was, k@)].0),
                                ),
                                p <= place(was, k@),
                            decreases o@.len() - p,
                        {
                            proof {
                                assert(was[p as int].0 == o@[p as int].name@);
                            }
                            p += 1;
                        }
                        proof {
                            if p < o@.len() && p < place(was, k@) {
                                assert(!below(encode_utf8(k@), encode_utf8(was[p as int].0)));
                            }
                        }
                        o.insert(p, Field { name: k.to_owned(), value: v });
                        proof {
                            assert(fields_view(o@) =~= was.insert(p as int, (k@, v@)));
                        }
                    },
                }
                let ghost now = fields_view(o@);
                proof {
                    assert(now == before.with(k@, v@)->Object_0);
                }
            },
            _ => {},
        }
        proof {
            lemma_views(*self);
        }
    }

    pub fn is_null(&self) -> (r: bool)
        ensures
            r == (self@ == JsonView::Null),
    {
        proof {
            lemma_views(*self);
        }
        match self {
            Json::Null => true,
            _ => false,
        }
    }

    pub fn as_u64(&self) -> (r: Option<u64>)
        ensures
            match r {
                Some(n) => self@ == JsonView::Number(n),
                None => !(self@ is Number),
            },
    {
        proof {
            lemma_views(*self);
        }
        match self {
            Json::Number(n) => Some(*n),
            _ => None,
        }
    }

    pub fn as_str(&self) -> (r: Option<&str>)
        ensures
            match r {
                Some(s) => self@ == JsonView::Text(s@),
                None => !(self@ is Text),
            },
    {
        proof {
            lemma_views(*self);
        }
        match self {
            Json::Text(s) => Some(s.as_str()),
            _ => None,
        }
    }

    pub fn as_array(&self) -> (r: Option<&Vec<Json>>)
        ensures
            match r {
                Some(l) => self@ == JsonView::List(list_view(l@)),
                None => !(self@ is List),
            },
    {
        proof {
            lemma_views(*self);
        }
        match self {
            Json::List(l) => Some(l),
            _ => None,
        }
    }
}

/// The field called `k` of `v`, copied; null where there is none.
pub fn field(v: &Json, k: &str) -> (r: Json)
    ensures
        r@ == v@.at(k@),
{
    match v.get(k) {
        Some(x) => x.copy(),
        None => Json::Null,
    }
}

/// The field called `k` is the same in both values.
pub fn same_field(a: &Json, b: &Json, k: &str) -> (r: bool)
    ensures
        r == (a@.at(k@) == b@.at(k@)),
{
    match (a.get(k), b.get(k)) {
        (Some(x), Some(y)) => x.same(y),
        (Some(x), None) => x.is_null(),
        (None, Some(y)) => y.is_null(),
        (None, None) => true,
    }
}

} // verus!
