//! Executable RESP frame values.
//!
//! Each type's view is the corresponding `FrameV` model value; payloads are
//! byte vectors, and a double carries its wire token rather than a float.

use vstd::prelude::*;

use crate::resp::wire::FrameV;
use crate::resp::wire::clean_text;
use crate::resp::wire::is_double_token;
use crate::resp::wire::map_lookup;
use crate::resp::wire::map_put;

verus! {

/// `+` frame payload; must hold neither CR nor LF.
#[derive(Debug, Clone)]
pub struct SimpleString(pub Vec<u8>);

/// `-` frame payload; must hold neither CR nor LF.
#[derive(Debug, Clone)]
pub struct SimpleError(pub Vec<u8>);

/// `$` frame payload; `None` is the null bulk string.
#[derive(Debug, Clone)]
pub struct BulkString(pub Option<Vec<u8>>);

/// `_` frame.
#[derive(Debug, Clone)]
pub struct RespNull;

/// `,` frame, carried as its wire token (for example `+1.22` or `-inf`).
#[derive(Debug, Clone)]
pub struct Double(pub Vec<u8>);

/// `*` frame; `None` is the null array.
#[derive(Debug)]
pub struct RespArray(pub Option<Vec<RespFrame>>);

/// `%` frame: key/value pairs with unique keys, in insertion order.
#[derive(Debug)]
pub struct RespMap(pub Vec<(Vec<u8>, RespFrame)>);

/// `~` frame: unique elements in insertion order.
#[derive(Debug)]
pub struct RespSet(pub Vec<RespFrame>);

/// One RESP frame of any variant.
#[derive(Debug)]
pub enum RespFrame {
    SimpleString(SimpleString),
    Error(SimpleError),
    Null(RespNull),
    Integer(i64),
    BulkString(BulkString),
    Array(RespArray),
    Boolean(bool),
    Double(Double),
    Dict(RespMap),
    Uniq(RespSet),
}

// ---------------------------------------------------------------------------
// views
// ---------------------------------------------------------------------------

pub open spec fn frame_view(f: RespFrame) -> FrameV
    decreases f,
{
    match f {
        RespFrame::SimpleString(s) => FrameV::SimpleString(s.0@),
        RespFrame::Error(s) => FrameV::Error(s.0@),
        RespFrame::Null(_) => FrameV::Null,
        RespFrame::Integer(i) => FrameV::Integer(i as int),
        RespFrame::BulkString(b) => match b.0 {
            Option::None => FrameV::BulkString(Option::None),
            Option::Some(d) => FrameV::BulkString(Option::Some(d@)),
        },
        RespFrame::Array(a) => match a.0 {
            Option::None => FrameV::Array(Option::None),
            Option::Some(v) => FrameV::Array(Option::Some(frames_view(v@))),
        },
        RespFrame::Boolean(b) => FrameV::Boolean(b),
        RespFrame::Double(t) => FrameV::Double(t.0@),
        RespFrame::Dict(m) => FrameV::Dict(entries_view(m.0@)),
        RespFrame::Uniq(s) => FrameV::Uniq(frames_view(s.0@)),
    }
}

pub open spec fn frames_view(s: Seq<RespFrame>) -> Seq<FrameV>
    decreases s,
{
    if s.len() == 0 {
        Seq::empty()
    } else {
        seq![frame_view(s[0])] + frames_view(s.drop_first())
    }
}

pub open spec fn entries_view(s: Seq<(Vec<u8>, RespFrame)>) -> Seq<(Seq<u8>, FrameV)>
    decreases s,
{
    if s.len() == 0 {
        Seq::empty()
    } else {
        seq![(s[0].0@, frame_view(s[0].1))] + entries_view(s.drop_first())
    }
}

impl View for RespFrame {
    type V = FrameV;

    open spec fn view(&self) -> FrameV {
        frame_view(*self)
    }
}

impl View for SimpleString {
    type V = Seq<u8>;

    open spec fn view(&self) -> Seq<u8> {
        self.0@
    }
}

impl View for SimpleError {
    type V = Seq<u8>;

    open spec fn view(&self) -> Seq<u8> {
        self.0@
    }
}

impl View for BulkString {
    type V = Option<Seq<u8>>;

    open spec fn view(&self) -> Option<Seq<u8>> {
        match self.0 {
            Option::None => Option::None,
            Option::Some(d) => Option::Some(d@),
        }
    }
}

impl View for Double {
    type V = Seq<u8>;

    open spec fn view(&self) -> Seq<u8> {
        self.0@
    }
}

impl View for RespArray {
    type V = Option<Seq<FrameV>>;

    open spec fn view(&self) -> Option<Seq<FrameV>> {
        match self.0 {
            Option::None => Option::None,
            Option::Some(v) => Option::Some(frames_view(v@)),
        }
    }
}

impl View for RespMap {
    type V = Seq<(Seq<u8>, FrameV)>;

    open spec fn view(&self) -> Seq<(Seq<u8>, FrameV)> {
        entries_view(self.0@)
    }
}

impl View for RespSet {
    type V = Seq<FrameV>;

    open spec fn view(&self) -> Seq<FrameV> {
        frames_view(self.0@)
    }
}

pub broadcast proof fn lemma_frames_view_index(s: Seq<RespFrame>, i: int)
    requires
        0 <= i < s.len(),
    ensures
        frames_view(s).len() == s.len(),
        #[trigger] frames_view(s)[i] == frame_view(s[i]),
    decreases s.len(),
{
    lemma_frames_view_len(s);
    if i > 0 {
        lemma_frames_view_index(s.drop_first(), i - 1);
    }
}

pub broadcast proof fn lemma_frames_view_len(s: Seq<RespFrame>)
    ensures
        #[trigger] frames_view(s).len() == s.len(),
    decreases s.len(),
{
    if s.len() > 0 {
        lemma_frames_view_len(s.drop_first());
    }
}

pub broadcast proof fn lemma_entries_view_index(s: Seq<(Vec<u8>, RespFrame)>, i: int)
    requires
        0 <= i < s.len(),
    ensures
        entries_view(s).len() == s.len(),
        #[trigger] entries_view(s)[i] == (s[i].0@, frame_view(s[i].1)),
    decreases s.len(),
{
    lemma_entries_view_len(s);
    if i > 0 {
        lemma_entries_view_index(s.drop_first(), i - 1);
    }
}

pub broadcast proof fn lemma_entries_view_len(s: Seq<(Vec<u8>, RespFrame)>)
    ensures
        #[trigger] entries_view(s).len() == s.len(),
    decreases s.len(),
{
    if s.len() > 0 {
        lemma_entries_view_len(s.drop_first());
    }
}

// ---------------------------------------------------------------------------
// constructors
// ---------------------------------------------------------------------------

impl SimpleString {
    pub fn new(s: Vec<u8>) -> (r: SimpleString)
        requires
            clean_text(s@),
        ensures
            r@ == s@,
    {
        SimpleString(s)
    }
}

impl SimpleError {
    pub fn new(s: Vec<u8>) -> (r: SimpleError)
        requires
            clean_text(s@),
        ensures
            r@ == s@,
    {
        SimpleError(s)
    }
}

impl BulkString {
    pub fn new(s: Vec<u8>) -> (r: BulkString)
        ensures
            r@ == Option::Some(s@),
    {
        BulkString(Option::Some(s))
    }

    pub fn new_null() -> (r: BulkString)
        ensures
            r@ == Option::None::<Seq<u8>>,
    {
        BulkString(Option::None)
    }
}

impl RespArray {
    pub fn new(s: Vec<RespFrame>) -> (r: RespArray)
        ensures
            r@ == Option::Some(frames_view(s@)),
    {
        RespArray(Option::Some(s))
    }

    pub fn null() -> (r: RespArray)
        ensures
            r@ == Option::None::<Seq<FrameV>>,
    {
        RespArray(Option::None)
    }
}

impl RespSet {
    pub fn new(s: Vec<RespFrame>) -> (r: RespSet)
        ensures
            r@ == frames_view(s@),
    {
        RespSet(s)
    }
}

impl RespMap {
    pub fn new() -> (r: RespMap)
        ensures
            r@ == Seq::<(Seq<u8>, FrameV)>::empty(),
    {
        RespMap(Vec::new())
    }

    /// Keyed insertion: overwrites in place when the key is present,
    /// appends otherwise.
    pub fn insert(&mut self, key: Vec<u8>, value: RespFrame)
        ensures
            final(self)@ == map_put(old(self)@, key@, value@),
    {
        let n = self.0.len();
        let mut i: usize = 0;
        while i < n
            invariant
                n == self.0.len(),
                i <= n,
                *self == *old(self),
                forall|j: int| 0 <= j < i ==> old(self).0@[j].0@ != key@,
            decreases n - i,
        {
            if bytes_eq(&self.0[i].0, &key) {
                proof {
                    lemma_entries_view_index(self.0@, i as int);
                    assert forall|j: int| 0 <= j < i implies entries_view(self.0@)[j].0
                        != key@ by {
                        lemma_entries_view_index(self.0@, j);
                    }
                    lemma_map_put_hit(entries_view(self.0@), key@, value@, i as int);
                }
                let ghost old_entries = entries_view(self.0@);
                self.0.set(i, (key, value));
                proof {
                    assert(entries_view(self.0@) =~~= old_entries.update(
                        i as int,
                        (key@, value@),
                    )) by {
                        assert forall|j: int| 0 <= j < self.0@.len() implies entries_view(
                            self.0@,
                        )[j] == old_entries.update(i as int, (key@, value@))[j] by {
                            lemma_entries_view_index(self.0@, j);
                            lemma_entries_view_index(old(self).0@, j);
                        }
                        lemma_entries_view_len(self.0@);
                        lemma_entries_view_len(old(self).0@);
                    }
                }
                return ;
            }
            i = i + 1;
        }
        proof {
            assert forall|j: int| 0 <= j < self.0@.len() implies entries_view(self.0@)[j].0
                != key@ by {
                lemma_entries_view_index(self.0@, j);
            }
            lemma_entries_view_len(self.0@);
            lemma_map_put_miss(entries_view(self.0@), key@, value@);
        }
        let ghost old_entries = entries_view(self.0@);
        self.0.push((key, value));
        proof {
            assert(entries_view(self.0@) =~~= old_entries.push((key@, value@))) by {
                assert forall|j: int| 0 <= j < self.0@.len() implies entries_view(self.0@)[j]
                    == old_entries.push((key@, value@))[j] by {
                    lemma_entries_view_index(self.0@, j);
                    if j < old(self).0@.len() {
                        lemma_entries_view_index(old(self).0@, j);
                    }
                }
                lemma_entries_view_len(self.0@);
                lemma_entries_view_len(old(self).0@);
            }
        }
    }
}

/// `map_put` on a sequence whose `i`th key is `k` (and no earlier key is)
/// updates position `i` in place.
proof fn lemma_map_put_hit(m: Seq<(Seq<u8>, FrameV)>, k: Seq<u8>, v: FrameV, i: int)
    requires
        0 <= i < m.len(),
        m[i].0 == k,
        forall|j: int| 0 <= j < i ==> m[j].0 != k,
    ensures
        map_put(m, k, v) =~~= m.update(i, (k, v)),
    decreases i,
{
    if i == 0 {
        assert(map_put(m, k, v) =~~= seq![(k, v)] + m.skip(1));
    } else {
        lemma_map_put_hit(m.skip(1), k, v, i - 1);
        assert(map_put(m, k, v) =~~= seq![m[0]] + map_put(m.skip(1), k, v));
        assert(seq![m[0]] + m.skip(1).update(i - 1, (k, v)) =~~= m.update(i, (k, v)));
    }
}

/// `map_put` with a key absent from `m` appends.
proof fn lemma_map_put_miss(m: Seq<(Seq<u8>, FrameV)>, k: Seq<u8>, v: FrameV)
    requires
        forall|j: int| 0 <= j < m.len() ==> m[j].0 != k,
    ensures
        map_put(m, k, v) =~~= m.push((k, v)),
    decreases m.len(),
{
    if m.len() == 0 {
        assert(map_put(m, k, v) =~~= m.push((k, v)));
    } else {
        lemma_map_put_miss(m.skip(1), k, v);
        assert(map_put(m, k, v) =~~= seq![m[0]] + m.skip(1).push((k, v)));
        assert(seq![m[0]] + m.skip(1).push((k, v)) =~~= m.push((k, v)));
    }
}

// ---------------------------------------------------------------------------
// equality
// ---------------------------------------------------------------------------

/// Byte-vector equality.
pub fn bytes_eq(a: &Vec<u8>, b: &Vec<u8>) -> (r: bool)
    ensures
        r <==> a@ == b@,
{
    if a.len() != b.len() {
        return false;
    }
    let n = a.len();
    let mut i: usize = 0;
    while i < n
        invariant
            n == a.len() == b.len(),
            i <= n,
            forall|j: int| 0 <= j < i ==> a@[j] == b@[j],
        decreases n - i,
    {
        if a[i] != b[i] {
            return false;
        }
        i = i + 1;
    }
    proof {
        assert(a@ =~= b@);
    }
    true
}

/// Deep frame equality, decided by structure; true exactly when the two
/// frames have the same model value.
pub fn frame_eq(a: &RespFrame, b: &RespFrame) -> (r: bool)
    ensures
        r <==> a@ == b@,
    decreases *a,
{
    proof {
        lemma_view_variant(a);
        lemma_view_variant(b);
    }
    match a {
        RespFrame::SimpleString(x) => match b {
            RespFrame::SimpleString(y) => bytes_eq(&x.0, &y.0),
            _ => false,
        },
        RespFrame::Error(x) => match b {
            RespFrame::Error(y) => bytes_eq(&x.0, &y.0),
            _ => false,
        },
        RespFrame::Null(_) => match b {
            RespFrame::Null(_) => true,
            _ => false,
        },
        RespFrame::Integer(x) => match b {
            RespFrame::Integer(y) => *x == *y,
            _ => false,
        },
        RespFrame::Boolean(x) => match b {
            RespFrame::Boolean(y) => *x == *y,
            _ => false,
        },
        RespFrame::Double(x) => match b {
            RespFrame::Double(y) => bytes_eq(&x.0, &y.0),
            _ => false,
        },
        RespFrame::BulkString(x) => match b {
            RespFrame::BulkString(y) => match (&x.0, &y.0) {
                (Option::None, Option::None) => true,
                (Option::Some(dx), Option::Some(dy)) => bytes_eq(dx, dy),
                _ => false,
            },
            _ => false,
        },
        RespFrame::Array(x) => match b {
            RespFrame::Array(y) => match (&x.0, &y.0) {
                (Option::None, Option::None) => true,
                (Option::Some(vx), Option::Some(vy)) => frame_vecs_eq(vx, vy),
                _ => false,
            },
            _ => false,
        },
        RespFrame::Uniq(x) => match b {
            RespFrame::Uniq(y) => frame_vecs_eq(&x.0, &y.0),
            _ => false,
        },
        RespFrame::Dict(x) => match b {
            RespFrame::Dict(y) => entry_vecs_eq(x, y),
            _ => false,
        },
    }
}

/// A frame and its model value always have corresponding variants.
pub proof fn lemma_view_variant(f: &RespFrame)
    ensures
        f@ is SimpleString <==> f is SimpleString,
        f@ is Error <==> f is Error,
        f@ is Null <==> f is Null,
        f@ is Integer <==> f is Integer,
        f@ is Boolean <==> f is Boolean,
        f@ is Double <==> f is Double,
        f@ is BulkString <==> f is BulkString,
        f@ is Array <==> f is Array,
        f@ is Uniq <==> f is Uniq,
        f@ is Dict <==> f is Dict,
{
    match f {
        RespFrame::SimpleString(_) => {},
        RespFrame::Error(_) => {},
        RespFrame::Null(_) => {},
        RespFrame::Integer(_) => {},
        RespFrame::Boolean(_) => {},
        RespFrame::Double(_) => {},
        RespFrame::BulkString(_) => {},
        RespFrame::Array(_) => {},
        RespFrame::Uniq(_) => {},
        RespFrame::Dict(_) => {},
    }
}

/// Element-wise equality of two maps' entry vectors.
fn entry_vecs_eq(x: &RespMap, y: &RespMap) -> (r: bool)
    ensures
        r <==> entries_view(x.0@) == entries_view(y.0@),
    decreases x.0@,
{
    if x.0.len() != y.0.len() {
        proof {
            lemma_entries_view_len(x.0@);
            lemma_entries_view_len(y.0@);
        }
        return false;
    }
    let n = x.0.len();
    let mut i: usize = 0;
    while i < n
        invariant
            n == x.0.len() == y.0.len(),
            i <= n,
            forall|j: int| 0 <= j < i ==> #[trigger] entries_view(x.0@)[j] == entries_view(
                y.0@,
            )[j],
        decreases n - i,
    {
        proof {
            lemma_entries_view_index(x.0@, i as int);
            lemma_entries_view_index(y.0@, i as int);
        }
        if !bytes_eq(&x.0[i].0, &y.0[i].0) {
            return false;
        }
        if !frame_eq(&x.0[i].1, &y.0[i].1) {
            return false;
        }
        i = i + 1;
    }
    proof {
        lemma_entries_view_len(x.0@);
        lemma_entries_view_len(y.0@);
        assert(entries_view(x.0@) =~~= entries_view(y.0@));
    }
    true
}

/// Element-wise frame equality of two vectors.
pub fn frame_vecs_eq(a: &Vec<RespFrame>, b: &Vec<RespFrame>) -> (r: bool)
    ensures
        r <==> frames_view(a@) == frames_view(b@),
    decreases a@,
{
    if a.len() != b.len() {
        proof {
            lemma_frames_view_len(a@);
            lemma_frames_view_len(b@);
        }
        return false;
    }
    let n = a.len();
    let mut i: usize = 0;
    while i < n
        invariant
            n == a.len() == b.len(),
            i <= n,
            forall|j: int| 0 <= j < i ==> #[trigger] frames_view(a@)[j] == frames_view(b@)[j],
        decreases n - i,
    {
        proof {
            lemma_frames_view_index(a@, i as int);
            lemma_frames_view_index(b@, i as int);
        }
        if !frame_eq(&a[i], &b[i]) {
            return false;
        }
        i = i + 1;
    }
    proof {
        lemma_frames_view_len(a@);
        lemma_frames_view_len(b@);
        assert(frames_view(a@) =~~= frames_view(b@));
    }
    true
}


// ---------------------------------------------------------------------------
// cloning
// ---------------------------------------------------------------------------

/// Byte-vector copy.
pub fn clone_bytes(v: &Vec<u8>) -> (r: Vec<u8>)
    ensures
        r@ == v@,
{
    let mut r: Vec<u8> = Vec::new();
    let n = v.len();
    let mut i: usize = 0;
    while i < n
        invariant
            n == v.len(),
            i <= n,
            r@ == v@.take(i as int),
        decreases n - i,
    {
        r.push(v[i]);
        proof {
            assert(r@ =~= v@.take(i + 1));
        }
        i = i + 1;
    }
    proof {
        assert(v@.take(n as int) =~= v@);
    }
    r
}

impl Clone for RespFrame {
    /// Deep copy with the same model value.
    fn clone(&self) -> (r: Self)
        ensures
            r@ == self@,
        decreases *self,
    {
        match self {
            RespFrame::SimpleString(s) => RespFrame::SimpleString(SimpleString(clone_bytes(&s.0))),
            RespFrame::Error(s) => RespFrame::Error(SimpleError(clone_bytes(&s.0))),
            RespFrame::Null(_) => RespFrame::Null(RespNull),
            RespFrame::Integer(i) => RespFrame::Integer(*i),
            RespFrame::Boolean(b) => RespFrame::Boolean(*b),
            RespFrame::Double(t) => RespFrame::Double(Double(clone_bytes(&t.0))),
            RespFrame::BulkString(b) => match &b.0 {
                Option::None => RespFrame::BulkString(BulkString(Option::None)),
                Option::Some(d) => RespFrame::BulkString(BulkString(Option::Some(clone_bytes(d)))),
            },
            RespFrame::Array(a) => match &a.0 {
                Option::None => RespFrame::Array(RespArray(Option::None)),
                Option::Some(v) => RespFrame::Array(RespArray(Option::Some(clone_frames(v)))),
            },
            RespFrame::Uniq(s) => RespFrame::Uniq(RespSet(clone_frames(&s.0))),
            RespFrame::Dict(m) => RespFrame::Dict(RespMap(clone_entries(&m.0))),
        }
    }
}

/// Deep copy of a map's entry vector, element by element.
pub(crate) fn clone_entries(v: &Vec<(Vec<u8>, RespFrame)>) -> (r: Vec<(Vec<u8>, RespFrame)>)
    ensures
        entries_view(r@) == entries_view(v@),
    decreases v@,
{
    let mut r: Vec<(Vec<u8>, RespFrame)> = Vec::new();
    let n = v.len();
    let mut i: usize = 0;
    while i < n
        invariant
            n == v.len(),
            i <= n,
            r@.len() == i,
            forall|j: int| 0 <= j < i ==> #[trigger] entries_view(r@)[j] == entries_view(v@)[j],
        decreases n - i,
    {
        proof {
            lemma_entries_view_index(v@, i as int);
        }
        let ghost prev = r@;
        let e = (clone_bytes(&v[i].0), v[i].1.clone());
        r.push(e);
        proof {
            lemma_entries_view_push_frame(prev, r@, i as int);
            lemma_entries_view_index(r@, i as int);
        }
        i = i + 1;
    }
    proof {
        lemma_entries_view_len(r@);
        lemma_entries_view_len(v@);
        assert(entries_view(r@) =~~= entries_view(v@));
    }
    r
}

/// Pushing onto an entry vector leaves the earlier entry views unchanged.
proof fn lemma_entries_view_push_frame(prev: Seq<(Vec<u8>, RespFrame)>, cur: Seq<(Vec<u8>, RespFrame)>, i: int)
    requires
        cur.len() == prev.len() + 1,
        i == prev.len(),
        forall|j: int| 0 <= j < i ==> cur[j] == prev[j],
    ensures
        forall|j: int| 0 <= j < i ==> #[trigger] entries_view(cur)[j] == entries_view(prev)[j],
{
    assert forall|j: int| 0 <= j < i implies #[trigger] entries_view(cur)[j] == entries_view(
        prev,
    )[j] by {
        lemma_entries_view_index(cur, j);
        lemma_entries_view_index(prev, j);
    }
}

/// Deep copy of a frame vector, element by element.
pub fn clone_frames(v: &Vec<RespFrame>) -> (r: Vec<RespFrame>)
    ensures
        frames_view(r@) == frames_view(v@),
    decreases v@,
{
    let mut r: Vec<RespFrame> = Vec::new();
    let n = v.len();
    let mut i: usize = 0;
    while i < n
        invariant
            n == v.len(),
            i <= n,
            r@.len() == i,
            forall|j: int| 0 <= j < i ==> #[trigger] frames_view(r@)[j] == frames_view(v@)[j],
        decreases n - i,
    {
        proof {
            lemma_frames_view_index(v@, i as int);
        }
        let ghost prev = r@;
        let e = v[i].clone();
        r.push(e);
        proof {
            assert forall|j: int| 0 <= j < i + 1 implies #[trigger] frames_view(r@)[j]
                == frames_view(v@)[j] by {
                lemma_frames_view_index(r@, j);
                if j < i {
                    lemma_frames_view_index(prev, j);
                    assert(frames_view(prev)[j] == frames_view(v@)[j]);
                }
            }
        }
        i = i + 1;
    }
    proof {
        lemma_frames_view_len(r@);
        lemma_frames_view_len(v@);
        assert(frames_view(r@) =~~= frames_view(v@));
    }
    r
}


/// Views distribute over `push`.
pub proof fn lemma_frames_view_push(s: Seq<RespFrame>, f: RespFrame)
    ensures
        frames_view(s.push(f)) == frames_view(s).push(frame_view(f)),
{
    assert forall|j: int| 0 <= j < s.len() + 1 implies #[trigger] frames_view(s.push(f))[j]
        == frames_view(s).push(frame_view(f))[j] by {
        lemma_frames_view_index(s.push(f), j);
        if j < s.len() {
            lemma_frames_view_index(s, j);
        }
        lemma_frames_view_len(s);
    }
    lemma_frames_view_len(s.push(f));
    lemma_frames_view_len(s);
    assert(frames_view(s.push(f)) =~= frames_view(s).push(frame_view(f)));
}

/// Entry views distribute over `push`.
pub proof fn lemma_entries_view_push(s: Seq<(Vec<u8>, RespFrame)>, e: (Vec<u8>, RespFrame))
    ensures
        entries_view(s.push(e)) == entries_view(s).push((e.0@, frame_view(e.1))),
{
    assert forall|j: int| 0 <= j < s.len() + 1 implies #[trigger] entries_view(s.push(e))[j]
        == entries_view(s).push((e.0@, frame_view(e.1)))[j] by {
        lemma_entries_view_index(s.push(e), j);
        if j < s.len() {
            lemma_entries_view_index(s, j);
        }
        lemma_entries_view_len(s);
    }
    lemma_entries_view_len(s.push(e));
    lemma_entries_view_len(s);
    assert(entries_view(s.push(e)) =~= entries_view(s).push((e.0@, frame_view(e.1))));
}


impl Clone for RespMap {
    /// Deep copy with the same entries.
    fn clone(&self) -> (r: Self)
        ensures
            r@ == self@,
    {
        RespMap(clone_entries(&self.0))
    }
}

impl RespMap {
    /// Looks the key up, returning a copy of the stored frame.
    pub fn get(&self, key: &Vec<u8>) -> (r: Option<RespFrame>)
        ensures
            match map_lookup(self@, key@) {
                Option::Some(fv) => r is Some && r->0@ == fv,
                Option::None => r is None,
            },
    {
        let n = self.0.len();
        proof {
            lemma_entries_view_len(self.0@);
        }
        let mut i: usize = 0;
        proof {
            assert(entries_view(self.0@).skip(0) =~= entries_view(self.0@));
        }
        while i < n
            invariant
                i <= n == self.0@.len(),
                entries_view(self.0@).len() == n,
                map_lookup(self@, key@) == map_lookup(entries_view(self.0@).skip(i as int), key@),
            decreases n - i,
        {
            proof {
                lemma_entries_view_index(self.0@, i as int);
                assert(entries_view(self.0@).skip(i as int)[0] == entries_view(self.0@)[
                    i as int
                ]);
            }
            if bytes_eq(&self.0[i].0, key) {
                let f = self.0[i].1.clone();
                return Some(f);
            }
            proof {
                assert(entries_view(self.0@).skip(i as int).skip(1) =~= entries_view(
                    self.0@,
                ).skip(i + 1));
            }
            i = i + 1;
        }
        proof {
            assert(entries_view(self.0@).skip(n as int).len() == 0);
        }
        None
    }
}


impl Double {
    /// Validates a wire token and wraps it; `None` when the token does not
    /// obey the double grammar.
    pub fn new(token: Vec<u8>) -> (r: Option<Double>)
        ensures
            match r {
                Option::Some(d) => is_double_token(token@) && d@ == token@,
                Option::None => !is_double_token(token@),
            },
    {
        if crate::resp::decode::is_double_token_exec(&token) {
            Some(Double(token))
        } else {
            None
        }
    }
}

} // verus!




