use vstd::prelude::*;

use crate::brick::BrickView;
use crate::error::VoxelError;
use crate::model::ModelView;
use crate::scene::{clean_model, live, view_wf, Scene};
use crate::sdf::{
    brick_record, dead_record, encode_brick, encode_dead, root_bits, root_word, HEADER_WORDS,
    RECORD_WORDS,
};

verus! {

/// Largest buffer the builder will ever fill, in bytes: 2 GiB.
pub const MAX_BUFFER_BYTES: u64 = 0x8000_0000;

/// Which brick a record of the buffer holds, and whether it still holds one.
#[derive(Copy, Clone, Debug, PartialEq, Eq, Structural)]
pub struct RecordKey {
    /// Scene slot of the model.
    pub model: usize,
    /// Index of the brick within the model.
    pub brick: usize,
    /// False once the brick left the scene and its record was cleared.
    pub live: bool,
}

/// One write of consecutive words into the buffer.
pub struct Upload {
    /// First word written.
    pub offset: usize,
    /// The words written from `offset` on.
    pub words: Vec<u32>,
}

/// Words `[2 + k * RECORD_WORDS, 2 + (k + 1) * RECORD_WORDS)`: record `k`.
pub open spec fn record(words: Seq<u32>, k: int) -> Seq<u32> {
    words.subrange(2 + k * RECORD_WORDS, 2 + k * RECORD_WORDS + RECORD_WORDS)
}

/// Whether the brick of key `k` is still in scene `s`.
pub open spec fn key_alive(k: RecordKey, s: Seq<Option<ModelView>>) -> bool {
    live(s, k.model as int) && k.brick < s[k.model as int].unwrap().bricks.len()
}

/// The brick of key `k` in scene `s`.
pub open spec fn key_brick(k: RecordKey, s: Seq<Option<ModelView>>) -> BrickView {
    s[k.model as int].unwrap().bricks[k.brick as int]
}

/// What record `k` must hold for scene `s`.
pub open spec fn key_record(k: RecordKey, s: Seq<Option<ModelView>>) -> Seq<u32> {
    if key_alive(k, s) {
        brick_record(key_brick(k, s))
    } else {
        dead_record()
    }
}

/// Whether the record of key `k` must be rewritten for scene `s`: its brick
/// changed or left the scene since it was written.
pub open spec fn stale(k: RecordKey, s: Seq<Option<ModelView>>) -> bool {
    k.live && (!key_alive(k, s) || key_brick(k, s).dirty)
}

/// Key `k` after a sync against scene `s`.
pub open spec fn updated_key(k: RecordKey, s: Seq<Option<ModelView>>) -> RecordKey {
    RecordKey { model: k.model, brick: k.brick, live: k.live && key_alive(k, s) }
}

/// The keys of the bricks of slot `m` of scene `s`, none if it is not live.
pub open spec fn model_keys(s: Seq<Option<ModelView>>, m: int) -> Seq<RecordKey> {
    if live(s, m) {
        Seq::new(
            s[m].unwrap().bricks.len(),
            |b: int| RecordKey { model: m as usize, brick: b as usize, live: true },
        )
    } else {
        Seq::empty()
    }
}

/// The keys of the bricks of slots `from..to` of scene `s`, in order.
pub open spec fn new_keys(s: Seq<Option<ModelView>>, from: int, to: int) -> Seq<RecordKey>
    decreases to - from,
{
    if to <= from {
        Seq::empty()
    } else {
        new_keys(s, from, to - 1) + model_keys(s, to - 1)
    }
}

/// Scene `s` with every brick of every live model marked clean.
pub open spec fn cleaned(s: Seq<Option<ModelView>>) -> Seq<Option<ModelView>> {
    s.map_values(
        |o: Option<ModelView>|
            match o {
                Some(mv) => Some(clean_model(mv)),
                None => None,
            },
    )
}

/// Record ranges of distinct records do not overlap.
proof fn lemma_records_disjoint(k1: int, k2: int)
    requires
        0 <= k1 < k2,
    ensures
        k1 * RECORD_WORDS + RECORD_WORDS <= k2 * RECORD_WORDS,
{
    assert(k1 * RECORD_WORDS + RECORD_WORDS <= k2 * RECORD_WORDS) by (nonlinear_arith)
        requires
            0 <= k1 < k2,
    ;
}

/// Records before `n` lie within a buffer of `n` records.
proof fn lemma_record_fits(k: int, n: int)
    requires
        0 <= k < n,
    ensures
        2 + k * RECORD_WORDS + RECORD_WORDS <= 2 + n * RECORD_WORDS,
{
    lemma_records_disjoint(k, n);
}

/// `n` records fit in `m` words exactly when `n` is at most `(m - 2) / RECORD_WORDS`.
proof fn lemma_capacity(n: int, m: int)
    requires
        n >= 0,
        m >= 2,
    ensures
        (2 + n * RECORD_WORDS <= m) == (n <= (m - 2) / (RECORD_WORDS as int)),
{
    let q = (m - 2) / (RECORD_WORDS as int);
    let r = (m - 2) % (RECORD_WORDS as int);
    assert(m - 2 == q * RECORD_WORDS + r && 0 <= r < RECORD_WORDS) by {
        vstd::arithmetic::div_mod::lemma_fundamental_div_mod(m - 2, RECORD_WORDS as int);
    }
    if n <= q {
        assert(n * RECORD_WORDS <= q * RECORD_WORDS) by (nonlinear_arith)
            requires
                n <= q,
        ;
    } else {
        assert(n * RECORD_WORDS >= q * RECORD_WORDS + RECORD_WORDS) by (nonlinear_arith)
            requires
                n > q,
        ;
    }
}

/// Writes `rec` over record `k` of `words`, leaving every other word alone.
fn write_record(words: &mut Vec<u32>, k: usize, rec: &Vec<u32>)
    requires
        rec@.len() == RECORD_WORDS,
        2 + k * RECORD_WORDS + RECORD_WORDS <= old(words)@.len(),
    ensures
        final(words)@.len() == old(words)@.len(),
        record(final(words)@, k as int) == rec@,
        forall|j: int|
            0 <= j < old(words)@.len() && !(2 + k * RECORD_WORDS <= j < 2 + k * RECORD_WORDS
                + RECORD_WORDS) ==> final(words)@[j] == old(words)@[j],
{
    let len = words.len();
    assert(2 + k * RECORD_WORDS + RECORD_WORDS <= len);
    let base = 2 + k * RECORD_WORDS;
    let mut t: usize = 0;
    while t < RECORD_WORDS
        invariant
            base == 2 + k * RECORD_WORDS,
            base + RECORD_WORDS <= len,
            words@.len() == len,
            rec@.len() == RECORD_WORDS,
            words@.len() == old(words)@.len(),
            t <= RECORD_WORDS,
            forall|i: int| 0 <= i < t ==> words@[base + i] == rec@[i],
            forall|j: int|
                0 <= j < words@.len() && !(base <= j < base + t) ==> words@[j] == old(words)@[j],
        decreases RECORD_WORDS - t,
    {
        words.set(base + t, rec[t]);
        t = t + 1;
    }
    assert(record(words@, k as int) =~= rec@);
}

/// A record elsewhere than record `k` is the same before and after a write
/// of record `k`.
proof fn lemma_other_record(old_w: Seq<u32>, new_w: Seq<u32>, k: int, k2: int, n: int)
    requires
        0 <= k < n,
        0 <= k2 < n,
        k != k2,
        old_w.len() == new_w.len(),
        2 + n * RECORD_WORDS <= old_w.len(),
        forall|j: int|
            0 <= j < old_w.len() && !(2 + k * RECORD_WORDS <= j < 2 + k * RECORD_WORDS
                + RECORD_WORDS) ==> new_w[j] == old_w[j],
    ensures
        record(new_w, k2) == record(old_w, k2),
{
    lemma_record_fits(k2, n);
    if k < k2 {
        lemma_records_disjoint(k, k2);
    } else {
        lemma_records_disjoint(k2, k);
    }
    assert(record(new_w, k2) =~= record(old_w, k2));
}

/// `words` followed by `rec`.
fn append_record(words: &mut Vec<u32>, rec: &Vec<u32>)
    ensures
        final(words)@ == old(words)@ + rec@,
{
    let mut t: usize = 0;
    while t < rec.len()
        invariant
            t <= rec@.len(),
            words@ == old(words)@ + rec@.subrange(0, t as int),
        decreases rec@.len() - t,
    {
        words.push(rec[t]);
        t = t + 1;
        assert(words@ =~= old(words)@ + rec@.subrange(0, t as int));
    }
    assert(rec@.subrange(0, rec@.len() as int) =~= rec@);
}
/// Number of keys among the first `n` of `keys` that hold no brick.
pub open spec fn free_count(keys: Seq<RecordKey>, n: int) -> nat
    decreases n,
{
    if n <= 0 {
        0
    } else {
        free_count(keys, n - 1) + if keys[n - 1].live {
            0nat
        } else {
            1nat
        }
    }
}

/// `keys` after the keys whose brick left scene `s` were dropped.
pub open spec fn refreshed(keys: Seq<RecordKey>, s: Seq<Option<ModelView>>) -> Seq<RecordKey> {
    keys.map_values(|k: RecordKey| updated_key(k, s))
}

/// Whether record `k` of refreshed keys `keys1` goes to one of `m` new
/// bricks: it holds none, and fewer than `m` free records come before it.
pub open spec fn reused(keys1: Seq<RecordKey>, k: int, m: int) -> bool {
    !keys1[k].live && free_count(keys1, k) < m
}

/// Whether the brick of key `k` is still in scene `s` and changed.
pub open spec fn rewritten(k: RecordKey, s: Seq<Option<ModelView>>) -> bool {
    k.live && key_alive(k, s) && key_brick(k, s).dirty
}

/// Whether the brick of key `k` left scene `s`.
pub open spec fn dropped(k: RecordKey, s: Seq<Option<ModelView>>) -> bool {
    k.live && !key_alive(k, s)
}

/// Each upload `i` writes record `urec[i]`, below `n`, with what `words`
/// holds there, and no two uploads write the same record.
pub open spec fn ups_track(ups: Seq<Upload>, urec: Seq<int>, words: Seq<u32>, n: int) -> bool {
    &&& ups.len() == urec.len()
    &&& forall|i: int|
        0 <= i < ups.len() ==> 0 <= #[trigger] urec[i] < n && ups[i].offset == 2 + urec[i]
            * RECORD_WORDS && ups[i].words@ == record(words, urec[i])
    &&& forall|i: int, j: int| 0 <= i < j < ups.len() ==> #[trigger] urec[i] != #[trigger] urec[j]
}

/// Whether record `k` changes in a sync from keys `ok` against scene `s`
/// that places `m` new bricks: it is new, handed to a new brick, or stale.
pub open spec fn touched(ok: Seq<RecordKey>, s: Seq<Option<ModelView>>, m: int, k: int) -> bool {
    k >= ok.len() || reused(refreshed(ok, s), k, m) || stale(ok[k], s)
}

/// Free records before `b` are at least those before `a`, and one more
/// where record `a` itself is free.
proof fn lemma_free_count_mono(keys: Seq<RecordKey>, a: int, b: int)
    requires
        0 <= a <= b <= keys.len(),
    ensures
        free_count(keys, a) <= free_count(keys, b),
        a < b && !keys[a].live ==> free_count(keys, a) < free_count(keys, b),
    decreases b - a,
{
    if a < b {
        lemma_free_count_mono(keys, a, b - 1);
        if a == b - 1 {
        } else {
            lemma_free_count_mono(keys, a + 1, b - 1);
        }
    }
}

/// Every key that `new_keys` lists names a brick present in the scene.
proof fn lemma_new_keys_alive(s: Seq<Option<ModelView>>, from: int, to: int)
    requires
        view_wf(s),
    ensures
        forall|i: int|
            0 <= i < new_keys(s, from, to).len() ==> (#[trigger] new_keys(s, from, to)[i]).live
                && key_alive(new_keys(s, from, to)[i], s),
    decreases to - from,
{
    if to > from {
        lemma_new_keys_alive(s, from, to - 1);
        let a = new_keys(s, from, to - 1);
        let b = model_keys(s, to - 1);
        assert forall|i: int| 0 <= i < (a + b).len() implies (#[trigger] (a + b)[i]).live && key_alive(
            (a + b)[i],
            s,
        ) by {
            if i >= a.len() {
                assert((a + b)[i] == b[i - a.len()]);
                assert(live(s, to - 1));
                assert(crate::model::bricks_ok(s[to - 1].unwrap().bricks));
                let j = i - a.len();
                assert(b[j] == RecordKey { model: (to - 1) as usize, brick: j as usize, live: true });
                assert(key_alive(b[j], s));
            } else {
                assert((a + b)[i] == a[i]);
            }
        }
        assert(new_keys(s, from, to) == a + b);
    }
}

/// Upload `u` writes words 0 and 1 (the root and the count) as `words` holds
/// them; that happens only where records were appended.
pub open spec fn header_upload(u: Upload, words: Seq<u32>) -> bool {
    u.offset == 0 && u.words@ == words.subrange(0, 2)
}

/// Upload `u` writes record `k` as `words` holds it.
pub open spec fn record_upload(u: Upload, words: Seq<u32>, k: int) -> bool {
    u.offset == 2 + k * RECORD_WORDS && u.words@ == record(words, k)
}

/// Upload `u` writes one record below `n` that the sync changes, as `w`
/// holds it.
pub open spec fn writes_touched(
    u: Upload,
    w: Seq<u32>,
    ok: Seq<RecordKey>,
    s: Seq<Option<ModelView>>,
    m: int,
    n: int,
) -> bool {
    exists|k: int| 0 <= k < n && touched(ok, s, m, k) && #[trigger] record_upload(u, w, k)
}

/// The uploads of a sync that leaves `w` in the buffer, from keys `ok`
/// against scene `s` with `m` new bricks of which `app` got appended
/// records, `n` records in all: each writes the root and the count (only
/// where records were appended) or one changed record; every changed record
/// and, where records were appended, the header is written; no two write
/// the same place.
pub open spec fn uploads_exact(
    ups: Seq<Upload>,
    w: Seq<u32>,
    ok: Seq<RecordKey>,
    s: Seq<Option<ModelView>>,
    m: int,
    app: int,
    n: int,
) -> bool {
    &&& forall|i: int|
        0 <= i < ups.len() ==> (header_upload(#[trigger] ups[i], w) && app > 0) || writes_touched(
            ups[i],
            w,
            ok,
            s,
            m,
            n,
        )
    &&& forall|k: int|
        0 <= k < n && #[trigger] touched(ok, s, m, k) ==> exists|i: int|
            0 <= i < ups.len() && record_upload(#[trigger] ups[i], w, k)
    &&& app > 0 ==> exists|i: int| 0 <= i < ups.len() && header_upload(#[trigger] ups[i], w)
    &&& forall|i: int, j: int|
        0 <= i < j < ups.len() ==> (#[trigger] ups[i]).offset != (#[trigger] ups[j]).offset
}

/// `w` after writing upload `u`; words past the end of `w` that `u` does
/// not cover are unspecified.
pub open spec fn apply_upload(w: Seq<u32>, u: Upload) -> Seq<u32> {
    let end = u.offset + u.words@.len();
    Seq::new(
        if end > w.len() {
            end as nat
        } else {
            w.len()
        },
        |i: int|
            if u.offset <= i < end {
                u.words@[i - u.offset]
            } else {
                w[i]
            },
    )
}

/// `w` after writing the uploads `ups` in order.
pub open spec fn apply_uploads(w: Seq<u32>, ups: Seq<Upload>) -> Seq<u32>
    decreases ups.len(),
{
    if ups.len() == 0 {
        w
    } else {
        apply_upload(apply_uploads(w, ups.drop_last()), ups.last())
    }
}

proof fn lemma_apply_push(w: Seq<u32>, ups: Seq<Upload>, u: Upload)
    ensures
        apply_uploads(w, ups.push(u)) == apply_upload(apply_uploads(w, ups), u),
{
    assert(ups.push(u).drop_last() =~= ups);
}

/// Writing record `k` is applying an upload of it.
proof fn lemma_apply_record(prev: Seq<u32>, new: Seq<u32>, k: int, u: Upload)
    requires
        0 <= k,
        2 + k * RECORD_WORDS + RECORD_WORDS <= prev.len(),
        new.len() == prev.len(),
        u.offset == 2 + k * RECORD_WORDS,
        u.words@ == record(new, k),
        forall|j: int|
            0 <= j < prev.len() && !(2 + k * RECORD_WORDS <= j < 2 + k * RECORD_WORDS
                + RECORD_WORDS) ==> new[j] == prev[j],
    ensures
        apply_upload(prev, u) == new,
{
    assert(apply_upload(prev, u) =~= new);
}

/// Appending a record is applying an upload of it at the end.
proof fn lemma_apply_append(prev: Seq<u32>, u: Upload)
    requires
        u.offset == prev.len(),
    ensures
        apply_upload(prev, u) == prev + u.words@,
{
    assert(apply_upload(prev, u) =~= prev + u.words@);
}

/// Whether some entry of `urec` is `k`.
pub open spec fn covered(urec: Seq<int>, k: int) -> bool {
    exists|i: int| 0 <= i < urec.len() && #[trigger] urec[i] == k
}

proof fn lemma_covered_push(u: Seq<int>, x: int, k: int)
    requires
        covered(u, k) || x == k,
    ensures
        covered(u.push(x), k),
{
    if x == k {
        assert(u.push(x)[u.len() as int] == k);
    } else {
        let i = choose|i: int| 0 <= i < u.len() && #[trigger] u[i] == k;
        assert(u.push(x)[i] == k);
    }
}

/// Free records are never more than records.
proof fn lemma_free_count_le(keys: Seq<RecordKey>, n: int)
    requires
        0 <= n <= keys.len(),
    ensures
        free_count(keys, n) <= n,
    decreases n,
{
    if n > 0 {
        lemma_free_count_le(keys, n - 1);
    }
}

/// Skipping records that hold bricks skips no free record.
proof fn lemma_free_count_skip(keys: Seq<RecordKey>, a: int, b: int)
    requires
        0 <= a <= b <= keys.len(),
        forall|k: int| a <= k < b ==> keys[k].live,
    ensures
        free_count(keys, a) == free_count(keys, b),
    decreases b - a,
{
    if a < b {
        lemma_free_count_skip(keys, a, b - 1);
    }
}

/// Multiplying by the record size keeps order.
proof fn lemma_mul_mono(a: int, b: int)
    requires
        0 <= a <= b,
    ensures
        a * RECORD_WORDS <= b * RECORD_WORDS,
{
    assert(a * RECORD_WORDS <= b * RECORD_WORDS) by (nonlinear_arith)
        requires
            0 <= a <= b,
    ;
}

/// The CPU copy of the distance-field buffer, and which brick each of its
/// records holds.
///
/// Word 0 is the root node, word 1 the number of records; record `k` starts
/// at word `2 + k * RECORD_WORDS`. A record whose brick left the scene is
/// cleared and later handed to a new brick.
pub struct SdfBuilder {
    /// What the buffer holds.
    pub words: Vec<u32>,
    /// The most words the buffer may hold.
    pub max_words: usize,
    /// The brick of each record.
    pub keys: Vec<RecordKey>,
    /// Scene slots whose bricks already have records.
    pub placed_models: usize,
}

impl SdfBuilder {
    pub open spec fn wf(&self) -> bool {
        &&& self.words@.len() == 2 + self.keys@.len() * RECORD_WORDS
        &&& self.words@.len() <= self.max_words <= MAX_BUFFER_BYTES / 4
        &&& self.words@[0] == root_word(self.keys@.len())
        &&& self.words@[1] == self.keys@.len()
    }

    /// The bricks of scene `s` once the sync is done: those whose records
    /// stay, and those of the models added since the last sync.
    pub open spec fn live_after(&self, s: Seq<Option<ModelView>>) -> int {
        self.keys@.len() - free_count(refreshed(self.keys@, s), self.keys@.len() as int)
            + new_keys(s, self.placed_models as int, s.len() as int).len()
    }

    /// Whether one record for each brick of scene `s`, after the header,
    /// fits in the buffer.
    pub open spec fn fits(&self, s: Seq<Option<ModelView>>) -> bool {
        2 + self.live_after(s) * RECORD_WORDS <= self.max_words
    }

    /// A builder for a buffer of at most `max_bytes` bytes, capped at
    /// `MAX_BUFFER_BYTES`, holding an empty scene. Fails where even the
    /// root and the record count do not fit.
    pub fn new(max_bytes: u64) -> (r: Result<SdfBuilder, VoxelError>)
        ensures
            ({
                let cap = if max_bytes < MAX_BUFFER_BYTES {
                    max_bytes
                } else {
                    MAX_BUFFER_BYTES
                };
                &&& cap / 4 < HEADER_WORDS ==> r == Err::<SdfBuilder, VoxelError>(
                    VoxelError::CapacityExceeded,
                )
                &&& cap / 4 >= HEADER_WORDS ==> (r matches Ok(b) && b.wf() && b.max_words == cap
                    / 4 && b.keys@.len() == 0 && b.placed_models == 0)
            }),
    {
        let cap = if max_bytes < MAX_BUFFER_BYTES {
            max_bytes
        } else {
            MAX_BUFFER_BYTES
        };
        let max_words = (cap / 4) as usize;
        if max_words < HEADER_WORDS {
            return Err(VoxelError::CapacityExceeded);
        }
        let mut words: Vec<u32> = Vec::new();
        words.push(root_bits(0));
        words.push(0);
        Ok(SdfBuilder { words, max_words, keys: Vec::new(), placed_models: 0 })
    }

    /// The words the buffer holds.
    pub fn words(&self) -> (r: &Vec<u32>)
        ensures
            r == &self.words,
    {
        &self.words
    }

    /// The keys of the bricks of the scene slots from `placed_models` on.
    fn collect_new(&self, scene: &Scene) -> (r: Vec<RecordKey>)
        requires
            scene.wf(),
        ensures
            r@ == new_keys(scene@, self.placed_models as int, scene@.len() as int),
    {
        let ghost s = scene@;
        let ghost from = self.placed_models as int;
        let end = scene.len();
        let mut r: Vec<RecordKey> = Vec::new();
        let mut m = self.placed_models;
        while m < end
            invariant
                s == scene@,
                scene.wf(),
                end == s.len(),
                from == self.placed_models,
                from <= m,
                m == from || m <= end,
                r@ == new_keys(s, from, m as int),
            decreases end - m,
        {
            assert(new_keys(s, from, m + 1) == new_keys(s, from, m as int) + model_keys(s, m as int));
            if scene.slot_is_live(m) {
                let c = scene.brick_count(m);
                let mut b: usize = 0;
                while b < c
                    invariant
                        s == scene@,
                        live(s, m as int),
                        c == s[m as int].unwrap().bricks.len(),
                        b <= c,
                        r@ == new_keys(s, from, m as int) + model_keys(s, m as int).take(b as int),
                    decreases c - b,
                {
                    let key = RecordKey { model: m, brick: b, live: true };
                    r.push(key);
                    assert(model_keys(s, m as int).take(b + 1) =~= model_keys(s, m as int).take(
                        b as int,
                    ).push(key));
                    assert(r@ =~= new_keys(s, from, m as int) + model_keys(s, m as int).take(b + 1));
                    b = b + 1;
                }
                assert(model_keys(s, m as int).take(c as int) =~= model_keys(s, m as int));
                assert(r@ =~= new_keys(s, from, m + 1));
            } else {
                assert(r@ =~= new_keys(s, from, m + 1));
            }
            m = m + 1;
        }
        assert(r@ =~= new_keys(s, from, s.len() as int));
        r
    }

    /// The first record from `c` on, below `n`, that holds no brick, or `n`.
    fn next_free(keys: &Vec<RecordKey>, c: usize, n: usize) -> (r: usize)
        requires
            c <= n <= keys@.len(),
        ensures
            c <= r <= n,
            forall|k: int| c <= k < r ==> keys@[k].live,
            r < n ==> !keys@[r as int].live,
    {
        let mut r = c;
        while r < n && keys[r].live
            invariant
                c <= r <= n,
                n <= keys@.len(),
                forall|k: int| c <= k < r ==> keys@[k].live,
            decreases n - r,
        {
            r = r + 1;
        }
        r
    }

    /// Whether the brick of key `key` is still in the scene.
    fn key_is_alive(scene: &Scene, key: RecordKey) -> (r: bool)
        ensures
            r == key_alive(key, scene@),
    {
        scene.slot_is_live(key.model) && key.brick < scene.brick_count(key.model)
    }

    /// Number of records whose brick is still in the scene.
    fn kept_count(&self, scene: &Scene) -> (r: usize)
        ensures
            r == self.keys@.len() - free_count(refreshed(self.keys@, scene@), self.keys@.len() as int),
    {
        let ghost keys1 = refreshed(self.keys@, scene@);
        let n0 = self.keys.len();
        let mut cnt: usize = 0;
        let mut k: usize = 0;
        while k < n0
            invariant
                n0 == self.keys@.len(),
                keys1 == refreshed(self.keys@, scene@),
                k <= n0,
                cnt == k - free_count(keys1, k as int),
            decreases n0 - k,
        {
            let key = self.keys[k];
            assert(keys1[k as int] == updated_key(key, scene@));
            if key.live && Self::key_is_alive(scene, key) {
                cnt = cnt + 1;
            }
            k = k + 1;
        }
        cnt
    }

    /// Rewrites the record of each brick that changed and drops the key of
    /// each brick that left the scene; reports which keys were dropped.
    fn refresh(&mut self, scene: &Scene, uploads: &mut Vec<Upload>) -> (r: (Vec<bool>, Ghost<Seq<int>>))
        requires
            old(self).wf(),
            scene.wf(),
            old(uploads)@.len() == 0,
        ensures
            apply_uploads(old(self).words@, final(uploads)@) == final(self).words@,
            final(self).wf(),
            final(self).words@.len() == old(self).words@.len(),
            final(self).max_words == old(self).max_words,
            final(self).placed_models == old(self).placed_models,
            final(self).keys@ == refreshed(old(self).keys@, scene@),
            forall|k: int|
                0 <= k < old(self).keys@.len() ==> #[trigger] record(final(self).words@, k) == (
                if rewritten(old(self).keys@[k], scene@) {
                    key_record(old(self).keys@[k], scene@)
                } else {
                    record(old(self).words@, k)
                }),
            r.0@.len() == old(self).keys@.len(),
            forall|k: int| 0 <= k < r.0@.len() ==> #[trigger] r.0@[k] == dropped(old(self).keys@[k], scene@),
            ups_track(final(uploads)@, r.1@, final(self).words@, old(self).keys@.len() as int),
            forall|i: int| 0 <= i < r.1@.len() ==> rewritten(old(self).keys@[#[trigger] r.1@[i]], scene@),
            forall|k: int|
                0 <= k < old(self).keys@.len() && rewritten(old(self).keys@[k], scene@) ==> exists|i: int|
                    0 <= i < r.1@.len() && #[trigger] r.1@[i] == k,
    {
        let ghost s = scene@;
        let ghost old_words = self.words@;
        let ghost old_keys = self.keys@;
        let n0 = self.keys.len();
        let ghost mut urec: Seq<int> = Seq::empty();
        let mut gone: Vec<bool> = Vec::new();
        let mut k: usize = 0;
        while k < n0
            invariant
                s == scene@,
                scene.wf(),
                n0 == old_keys.len(),
                self.keys@.len() == n0,
                self.words@.len() == old_words.len(),
                old_words.len() == 2 + n0 * RECORD_WORDS,
                self.words@[0] == old_words[0],
                self.words@[1] == old_words[1],
                self.max_words == old(self).max_words,
                self.placed_models == old(self).placed_models,
                old(self).wf(),
                old_words == old(self).words@,
                old_keys == old(self).keys@,
                k <= n0,
                gone@.len() == k,
                forall|j: int| 0 <= j < k ==> #[trigger] gone@[j] == dropped(old_keys[j], s),
                forall|j: int| 0 <= j < k ==> self.keys@[j] == updated_key(old_keys[j], s),
                forall|j: int| k <= j < n0 ==> self.keys@[j] == old_keys[j],
                forall|j: int|
                    0 <= j < k ==> #[trigger] record(self.words@, j) == (if rewritten(old_keys[j], s) {
                        key_record(old_keys[j], s)
                    } else {
                        record(old_words, j)
                    }),
                forall|j: int| k <= j < n0 ==> #[trigger] record(self.words@, j) == record(old_words, j),
                ups_track(uploads@, urec, self.words@, n0 as int),
                apply_uploads(old_words, uploads@) == self.words@,
                forall|i: int| 0 <= i < urec.len() ==> #[trigger] urec[i] < k && rewritten(old_keys[urec[i]], s),
                forall|j: int|
                    0 <= j < k && rewritten(old_keys[j], s) ==> exists|i: int|
                        0 <= i < urec.len() && #[trigger] urec[i] == j,
            decreases n0 - k,
        {
            let key = self.keys[k];
            proof {
                lemma_record_fits(k as int, n0 as int);
            }
            let ghost prev = self.words@;
            let ghost prev_urec = urec;
            let ghost prev_ups = uploads@;
            let mut dead = false;
            if key.live {
                if !Self::key_is_alive(scene, key) {
                    self.keys.set(k, RecordKey { model: key.model, brick: key.brick, live: false });
                    dead = true;
                } else {
                    let b = scene.brick_at(key.model, key.brick);
                    if b.dirty {
                        proof {
                            assert(crate::model::bricks_ok(s[key.model as int].unwrap().bricks));
                        }
                        let rec = encode_brick(b);
                        write_record(&mut self.words, k, &rec);
                        uploads.push(Upload { offset: 2 + k * RECORD_WORDS, words: rec });
                        proof {
                            urec = urec.push(k as int);
                            lemma_apply_push(old_words, prev_ups, uploads@.last());
                            lemma_apply_record(prev, self.words@, k as int, uploads@.last());
                        }
                    }
                }
            }
            gone.push(dead);
            proof {
                assert forall|j: int| 0 <= j < n0 && j != k implies #[trigger] record(self.words@, j)
                    == record(prev, j) by {
                    if self.words@ != prev {
                        lemma_other_record(prev, self.words@, k as int, j, n0 as int);
                    }
                }
                assert forall|i: int| 0 <= i < uploads@.len() implies 0 <= #[trigger] urec[i] < n0
                    && uploads@[i].offset == 2 + urec[i] * RECORD_WORDS && uploads@[i].words@ == record(
                    self.words@,
                    urec[i],
                ) by {
                    if i < prev_urec.len() {
                        assert(urec[i] == prev_urec[i]);
                        assert(urec[i] < k);
                    }
                }
                assert forall|j: int|
                    0 <= j < k + 1 && rewritten(old_keys[j], s) implies exists|i: int|
                        0 <= i < urec.len() && #[trigger] urec[i] == j by {
                    if j < k {
                        let i0 = choose|i: int| 0 <= i < prev_urec.len() && #[trigger] prev_urec[i] == j;
                        assert(urec[i0] == j);
                    } else {
                        assert(urec[urec.len() - 1] == j);
                    }
                }
            }
            k = k + 1;
        }
        assert(self.keys@ =~= refreshed(old_keys, s));
        (gone, Ghost(urec))
    }

    /// Gives each new brick a record: the free records first, in order, then
    /// records appended at the end; one upload for each.
    fn place_new(
        &mut self,
        nkv: &Vec<RecordKey>,
        scene: &Scene,
        uploads: &mut Vec<Upload>,
        urec0: Ghost<Seq<int>>,
        base: Ghost<Seq<u32>>,
    ) -> (urec: Ghost<Seq<int>>)
        requires
            apply_uploads(base@, old(uploads)@) == old(self).words@,
            old(self).words@.len() == 2 + old(self).keys@.len() * RECORD_WORDS,
            old(self).max_words <= MAX_BUFFER_BYTES / 4,
            scene.wf(),
            forall|j: int| 0 <= j < nkv@.len() ==> (#[trigger] nkv@[j]).live && key_alive(nkv@[j], scene@),
            2 + (old(self).keys@.len() - free_count(old(self).keys@, old(self).keys@.len() as int)
                + nkv@.len()) * RECORD_WORDS <= old(self).max_words,
            ups_track(old(uploads)@, urec0@, old(self).words@, old(self).keys@.len() as int),
            forall|i: int| 0 <= i < urec0@.len() ==> old(self).keys@[#[trigger] urec0@[i]].live,
        ensures
            ({
                let keys1 = old(self).keys@;
                let n0 = keys1.len() as int;
                let m = nkv@.len() as int;
                let fc = free_count(keys1, n0) as int;
                let app = if m > fc {
                    m - fc
                } else {
                    0
                };
                &&& final(self).keys@.len() == n0 + app
                &&& forall|k: int|
                    0 <= k < n0 ==> #[trigger] final(self).keys@[k] == if reused(keys1, k, m) {
                        nkv@[free_count(keys1, k) as int]
                    } else {
                        keys1[k]
                    }
                &&& forall|t: int| 0 <= t < app ==> #[trigger] final(self).keys@[n0 + t] == nkv@[fc + t]
                &&& final(self).words@.len() == 2 + final(self).keys@.len() * RECORD_WORDS
                &&& final(self).words@[0] == old(self).words@[0]
                &&& final(self).words@[1] == old(self).words@[1]
                &&& final(self).max_words == old(self).max_words
                &&& final(self).placed_models == old(self).placed_models
                &&& forall|k: int|
                    0 <= k < n0 ==> #[trigger] record(final(self).words@, k) == if reused(keys1, k, m) {
                        key_record(final(self).keys@[k], scene@)
                    } else {
                        record(old(self).words@, k)
                    }
                &&& forall|k: int|
                    n0 <= k < final(self).keys@.len() ==> #[trigger] record(final(self).words@, k)
                        == key_record(final(self).keys@[k], scene@)
                &&& ups_track(final(uploads)@, urec@, final(self).words@, final(self).keys@.len() as int)
                &&& apply_uploads(base@, final(uploads)@) == final(self).words@
                &&& urec@.len() >= urec0@.len()
                &&& forall|i: int| 0 <= i < urec0@.len() ==> #[trigger] urec@[i] == urec0@[i]
                &&& forall|i: int|
                    urec0@.len() <= i < urec@.len() ==> #[trigger] urec@[i] >= n0 || reused(
                        keys1,
                        urec@[i],
                        m,
                    )
                &&& forall|k: int|
                    0 <= k < final(self).keys@.len() && (k >= n0 || reused(keys1, k, m))
                        ==> covered(urec@, k)
            }),
    {
        let ghost s = scene@;
        let ghost keys1 = self.keys@;
        let ghost old_words = self.words@;
        let n0 = self.keys.len();
        let ghost fc = free_count(keys1, n0 as int) as int;
        let ghost u0 = urec0@.len();
        let ghost mut urec = urec0@;
        let m = nkv.len();
        proof {
            lemma_free_count_le(keys1, n0 as int);
        }
        let mut c: usize = 0;
        let mut j: usize = 0;
        while j < m
            invariant
                s == scene@,
                scene.wf(),
                keys1 == old(self).keys@,
                old_words == old(self).words@,
                n0 == keys1.len(),
                m == nkv@.len(),
                fc == free_count(keys1, n0 as int),
                fc <= n0,
                u0 == urec0@.len(),
                forall|q: int| 0 <= q < nkv@.len() ==> (#[trigger] nkv@[q]).live && key_alive(nkv@[q], s),
                2 + (n0 - fc + m) * RECORD_WORDS <= self.max_words,
                self.max_words == old(self).max_words,
                self.max_words <= MAX_BUFFER_BYTES / 4,
                self.placed_models == old(self).placed_models,
                old_words.len() == 2 + n0 * RECORD_WORDS,
                j <= m,
                c <= n0,
                self.keys@.len() >= n0,
                self.keys@.len() > n0 ==> c == n0,
                j == free_count(keys1, c as int) + (self.keys@.len() - n0),
                forall|k: int|
                    0 <= k < c ==> #[trigger] self.keys@[k] == if !keys1[k].live {
                        nkv@[free_count(keys1, k) as int]
                    } else {
                        keys1[k]
                    },
                forall|k: int| c <= k < n0 ==> #[trigger] self.keys@[k] == keys1[k],
                forall|t: int| 0 <= t < self.keys@.len() - n0 ==> #[trigger] self.keys@[n0 + t] == nkv@[fc + t],
                self.words@.len() == 2 + self.keys@.len() * RECORD_WORDS,
                self.words@[0] == old_words[0],
                self.words@[1] == old_words[1],
                forall|k: int|
                    0 <= k < c ==> #[trigger] record(self.words@, k) == if !keys1[k].live {
                        key_record(self.keys@[k], s)
                    } else {
                        record(old_words, k)
                    },
                forall|k: int| c <= k < n0 ==> #[trigger] record(self.words@, k) == record(old_words, k),
                forall|k: int|
                    n0 <= k < self.keys@.len() ==> #[trigger] record(self.words@, k) == key_record(
                        self.keys@[k],
                        s,
                    ),
                ups_track(uploads@, urec, self.words@, self.keys@.len() as int),
                apply_uploads(base@, uploads@) == self.words@,
                urec.len() >= u0,
                forall|i: int| 0 <= i < u0 ==> #[trigger] urec[i] == urec0@[i],
                forall|i: int| 0 <= i < u0 ==> keys1[#[trigger] urec0@[i]].live,
                forall|i: int|
                    u0 <= i < urec.len() ==> #[trigger] urec[i] >= n0 || (urec[i] < c && !keys1[urec[i]].live),
                forall|k: int|
                    0 <= k < self.keys@.len() && (k >= n0 || (k < c && !keys1[k].live)) ==> covered(urec, k),
            decreases m - j,
        {
            let c2 = Self::next_free(&self.keys, c, n0);
            proof {
                assert forall|k: int| c <= k < c2 implies keys1[k].live by {
                    assert(self.keys@[k] == keys1[k]);
                }
                lemma_free_count_skip(keys1, c as int, c2 as int);
                assert forall|i: int|
                    u0 <= i < urec.len() implies #[trigger] urec[i] >= n0 || (urec[i] < c2 && !keys1[urec[i]].live) by {
                }
                assert forall|k: int|
                    0 <= k < self.keys@.len() && (k >= n0 || (k < c2 && !keys1[k].live)) implies covered(urec, k) by {
                    if k < n0 && k >= c {
                        assert(self.keys@[k] == keys1[k]);
                    }
                }
            }
            c = c2;
            let key = nkv[j];
            let b = scene.brick_at(key.model, key.brick);
            proof {
                assert(crate::model::bricks_ok(s[key.model as int].unwrap().bricks));
            }
            let rec = encode_brick(b);
            let ghost prev = self.words@;
            let ghost prev_urec = urec;
            let ghost prev_ups = uploads@;
            let n = self.keys.len();
            if c < n0 {
                assert(!keys1[c as int].live);
                assert(free_count(keys1, c as int) == j);
                proof {
                    lemma_record_fits(c as int, n0 as int);
                }
                let wl = self.words.len();
                assert(2 + c * RECORD_WORDS + RECORD_WORDS <= wl);
                let off = 2 + c * RECORD_WORDS;
                write_record(&mut self.words, c, &rec);
                self.keys.set(c, key);
                uploads.push(Upload { offset: off, words: rec });
                proof {
                    urec = urec.push(c as int);
                    lemma_apply_push(base@, prev_ups, uploads@.last());
                    lemma_apply_record(prev, self.words@, c as int, uploads@.last());
                    assert forall|k: int| 0 <= k < n0 && k != c implies #[trigger] record(self.words@, k)
                        == record(prev, k) by {
                        lemma_other_record(prev, self.words@, c as int, k, n0 as int);
                    }
                    assert forall|i: int| 0 <= i < prev_urec.len() implies #[trigger] prev_urec[i] != c by {
                        if i < u0 {
                            assert(keys1[urec0@[i]].live);
                        }
                    }
                    assert forall|i: int| 0 <= i < uploads@.len() implies 0 <= #[trigger] urec[i] < n
                        && uploads@[i].offset == 2 + urec[i] * RECORD_WORDS && uploads@[i].words@ == record(
                        self.words@,
                        urec[i],
                    ) by {
                        if i < prev_urec.len() {
                            assert(urec[i] == prev_urec[i]);
                        }
                    }
                    assert forall|k: int|
                        0 <= k < self.keys@.len() && (k >= n0 || (k < c + 1 && !keys1[k].live)) implies covered(urec, k) by {
                        if k == c {
                            assert(urec[urec.len() - 1] == k);
                        } else {
                            assert(covered(prev_urec, k));
                            lemma_covered_push(prev_urec, c as int, k);
                        }
                    }
                    assert(free_count(keys1, c + 1) == free_count(keys1, c as int) + 1);
                }
                c = c + 1;
            } else {
                proof {
                    lemma_mul_mono(n + 1, n0 - fc + m);
                }
                append_record(&mut self.words, &rec);
                self.keys.push(key);
                uploads.push(Upload { offset: 2 + n * RECORD_WORDS, words: rec });
                proof {
                    urec = urec.push(n as int);
                    lemma_apply_push(base@, prev_ups, uploads@.last());
                    lemma_apply_append(prev, uploads@.last());
                    assert(record(self.words@, n as int) =~= rec@);
                    assert forall|k: int| 0 <= k < n implies #[trigger] record(self.words@, k) == record(prev, k) by {
                        lemma_record_fits(k, n as int);
                        assert(record(self.words@, k) =~= record(prev, k));
                    }
                    assert forall|i: int| 0 <= i < uploads@.len() implies 0 <= #[trigger] urec[i] < n + 1
                        && uploads@[i].offset == 2 + urec[i] * RECORD_WORDS && uploads@[i].words@ == record(
                        self.words@,
                        urec[i],
                    ) by {
                        if i < prev_urec.len() {
                            assert(urec[i] == prev_urec[i]);
                        }
                    }
                    assert forall|k: int|
                        0 <= k < self.keys@.len() && (k >= n0 || (k < c && !keys1[k].live)) implies covered(urec, k) by {
                        if k == n {
                            assert(urec[urec.len() - 1] == k);
                        } else {
                            assert(covered(prev_urec, k));
                            lemma_covered_push(prev_urec, n as int, k);
                        }
                    }
                    assert(self.keys@[n0 + (n - n0)] == nkv@[fc + (n - n0)]);
                }
            }
            j = j + 1;
        }
        proof {
            assert forall|k: int| 0 <= k < n0 implies reused(keys1, k, m as int) == (k < c && !keys1[k].live) by {
                if k < c {
                    lemma_free_count_mono(keys1, k, c as int);
                } else {
                    lemma_free_count_mono(keys1, c as int, k);
                }
            }
            lemma_free_count_mono(keys1, c as int, n0 as int);
        }
        Ghost(urec)
    }

    /// Clears each record among the first `gone@.len()` whose key was
    /// dropped and not handed to a new brick; one upload for each.
    fn clear_dropped(
        &mut self,
        gone: &Vec<bool>,
        uploads: &mut Vec<Upload>,
        urec0: Ghost<Seq<int>>,
        base: Ghost<Seq<u32>>,
    ) -> (urec: Ghost<Seq<int>>)
        requires
            apply_uploads(base@, old(uploads)@) == old(self).words@,
            gone@.len() <= old(self).keys@.len(),
            old(self).words@.len() == 2 + old(self).keys@.len() * RECORD_WORDS,
            ups_track(old(uploads)@, urec0@, old(self).words@, old(self).keys@.len() as int),
            forall|i: int|
                0 <= i < urec0@.len() ==> #[trigger] urec0@[i] >= gone@.len() || old(self).keys@[urec0@[i]].live,
        ensures
            final(self).keys@ == old(self).keys@,
            final(self).max_words == old(self).max_words,
            final(self).placed_models == old(self).placed_models,
            final(self).words@.len() == old(self).words@.len(),
            final(self).words@[0] == old(self).words@[0],
            final(self).words@[1] == old(self).words@[1],
            forall|k: int|
                0 <= k < gone@.len() ==> #[trigger] record(final(self).words@, k) == if gone@[k]
                    && !old(self).keys@[k].live {
                    dead_record()
                } else {
                    record(old(self).words@, k)
                },
            forall|k: int|
                gone@.len() <= k < old(self).keys@.len() ==> #[trigger] record(final(self).words@, k)
                    == record(old(self).words@, k),
            ups_track(final(uploads)@, urec@, final(self).words@, old(self).keys@.len() as int),
            apply_uploads(base@, final(uploads)@) == final(self).words@,
            urec@.len() >= urec0@.len(),
            forall|i: int| 0 <= i < urec0@.len() ==> #[trigger] urec@[i] == urec0@[i],
            forall|i: int|
                urec0@.len() <= i < urec@.len() ==> #[trigger] urec@[i] < gone@.len() && gone@[urec@[i]]
                    && !old(self).keys@[urec@[i]].live,
            forall|k: int| #[trigger] covered(urec0@, k) ==> covered(urec@, k),
            forall|k: int|
                0 <= k < gone@.len() && gone@[k] && !old(self).keys@[k].live ==> #[trigger] covered(
                    urec@,
                    k,
                ),
    {
        let ghost old_words = self.words@;
        let ghost u0 = urec0@;
        let ghost mut urec = urec0@;
        let n = self.keys.len();
        let g = gone.len();
        let mut k: usize = 0;
        while k < g
            invariant
                g == gone@.len(),
                g <= n,
                n == self.keys@.len(),
                self.keys@ == old(self).keys@,
                self.max_words == old(self).max_words,
                self.placed_models == old(self).placed_models,
                old_words == old(self).words@,
                u0 == urec0@,
                self.words@.len() == old_words.len(),
                old_words.len() == 2 + n * RECORD_WORDS,
                self.words@[0] == old_words[0],
                self.words@[1] == old_words[1],
                k <= g,
                forall|j: int|
                    0 <= j < k ==> #[trigger] record(self.words@, j) == if gone@[j] && !self.keys@[j].live {
                        dead_record()
                    } else {
                        record(old_words, j)
                    },
                forall|j: int| k <= j < n ==> #[trigger] record(self.words@, j) == record(old_words, j),
                ups_track(uploads@, urec, self.words@, n as int),
                apply_uploads(base@, uploads@) == self.words@,
                urec.len() >= u0.len(),
                forall|i: int| 0 <= i < u0.len() ==> #[trigger] urec[i] == u0[i],
                forall|i: int| 0 <= i < u0.len() ==> #[trigger] u0[i] >= g || self.keys@[u0[i]].live,
                forall|i: int|
                    u0.len() <= i < urec.len() ==> #[trigger] urec[i] < k && gone@[urec[i]] && !self.keys@[urec[i]].live,
                forall|j: int| #[trigger] covered(u0, j) ==> covered(urec, j),
                forall|j: int| 0 <= j < k && gone@[j] && !self.keys@[j].live ==> #[trigger] covered(urec, j),
            decreases g - k,
        {
            if gone[k] && !self.keys[k].live {
                proof {
                    lemma_record_fits(k as int, n as int);
                }
                let ghost prev = self.words@;
                let ghost prev_urec = urec;
                let ghost prev_ups = uploads@;
                let wl = self.words.len();
                assert(2 + k * RECORD_WORDS + RECORD_WORDS <= wl);
                let off = 2 + k * RECORD_WORDS;
                let rec = encode_dead();
                write_record(&mut self.words, k, &rec);
                uploads.push(Upload { offset: off, words: rec });
                proof {
                    urec = urec.push(k as int);
                    lemma_apply_push(base@, prev_ups, uploads@.last());
                    lemma_apply_record(prev, self.words@, k as int, uploads@.last());
                    assert forall|j: int| 0 <= j < n && j != k implies #[trigger] record(self.words@, j)
                        == record(prev, j) by {
                        lemma_other_record(prev, self.words@, k as int, j, n as int);
                    }
                    assert forall|i: int| 0 <= i < prev_urec.len() implies #[trigger] prev_urec[i] != k by {
                        if i < u0.len() {
                            assert(urec[i] == u0[i]);
                        }
                    }
                    assert forall|i: int| 0 <= i < uploads@.len() implies 0 <= #[trigger] urec[i] < n
                        && uploads@[i].offset == 2 + urec[i] * RECORD_WORDS && uploads@[i].words@ == record(
                        self.words@,
                        urec[i],
                    ) by {
                        if i < prev_urec.len() {
                            assert(urec[i] == prev_urec[i]);
                        }
                    }
                    assert forall|j: int| #[trigger] covered(u0, j) implies covered(urec, j) by {
                        lemma_covered_push(prev_urec, k as int, j);
                    }
                    assert forall|j: int| 0 <= j < k + 1 && gone@[j] && !self.keys@[j].live implies #[trigger] covered(
                        urec,
                        j,
                    ) by {
                        lemma_covered_push(prev_urec, k as int, j);
                    }
                }
            }
            k = k + 1;
        }
        Ghost(urec)
    }

    /// Brings the buffer up to date with `scene` and marks the scene's bricks
    /// clean.
    ///
    /// A record is rewritten where its brick changed, cleared where its brick
    /// left the scene, and handed to a brick of a model added since the last
    /// sync where it holds none; such bricks take free records in order, and
    /// the rest get records appended at the end. The uploads write exactly
    /// the records that change, one each, plus the root and the count where
    /// records were appended; writing them in order over the old words gives
    /// the new ones. Fails with `CapacityExceeded`, changing neither
    /// the buffer nor the scene, exactly where one record per brick of the
    /// scene, after the header, would not fit.
    #[verifier::rlimit(60)]
    pub fn sync(&mut self, scene: &mut Scene) -> (r: Result<Vec<Upload>, VoxelError>)
        requires
            old(self).wf(),
            old(scene).wf(),
        ensures
            final(self).wf(),
            final(scene).wf(),
            !old(self).fits(old(scene)@) ==> r == Err::<Vec<Upload>, VoxelError>(
                VoxelError::CapacityExceeded,
            ) && *final(self) == *old(self) && final(scene)@ == old(scene)@,
            old(self).fits(old(scene)@) ==> (r matches Ok(ups) && ({
                let s = old(scene)@;
                let ok = old(self).keys@;
                let keys1 = refreshed(ok, s);
                let n0 = ok.len() as int;
                let nk = new_keys(s, old(self).placed_models as int, s.len() as int);
                let m = nk.len() as int;
                let fc = free_count(keys1, n0) as int;
                let app = if m > fc {
                    m - fc
                } else {
                    0
                };
                let w = final(self).words@;
                let n = final(self).keys@.len() as int;
                &&& n == n0 + app
                &&& forall|k: int|
                    0 <= k < n0 ==> #[trigger] final(self).keys@[k] == if reused(keys1, k, m) {
                        nk[free_count(keys1, k) as int]
                    } else {
                        keys1[k]
                    }
                &&& forall|t: int| 0 <= t < app ==> #[trigger] final(self).keys@[n0 + t] == nk[fc + t]
                &&& forall|k: int|
                    0 <= k < n0 ==> #[trigger] record(w, k) == if reused(keys1, k, m) {
                        key_record(final(self).keys@[k], s)
                    } else if stale(ok[k], s) {
                        key_record(ok[k], s)
                    } else {
                        record(old(self).words@, k)
                    }
                &&& forall|k: int| n0 <= k < n ==> #[trigger] record(w, k) == key_record(final(self).keys@[k], s)
                &&& final(self).max_words == old(self).max_words
                &&& final(self).placed_models == if old(self).placed_models < s.len() {
                    s.len() as usize
                } else {
                    old(self).placed_models
                }
                &&& final(scene)@ == cleaned(s)
                &&& uploads_exact(ups@, w, ok, s, m, app, n)
                &&& apply_uploads(old(self).words@, ups@) == w
                &&& forall|k: int|
                    0 <= k < n && (#[trigger] final(self).keys@[k]).live ==> key_alive(final(self).keys@[k], s)
            })),
    {
        let ghost s = scene@;
        let ghost ok = self.keys@;
        let ghost keys1 = refreshed(ok, s);
        let n0 = self.keys.len();
        let kept = self.kept_count(scene);
        let nkv = self.collect_new(scene);
        let limit = (self.max_words - 2) / RECORD_WORDS;
        proof {
            lemma_capacity(n0 as int, self.max_words as int);
            lemma_capacity(kept + nkv@.len(), self.max_words as int);
        }
        if nkv.len() > limit - kept {
            assert(self.live_after(s) == kept + nkv@.len());
            assert(!self.fits(s));
            return Err(VoxelError::CapacityExceeded);
        }
        assert(self.live_after(s) == kept + nkv@.len());
        let ghost m = nkv@.len() as int;
        let ghost fc = free_count(keys1, n0 as int) as int;
        let mut uploads: Vec<Upload> = Vec::new();
        let (gone, g1) = self.refresh(scene, &mut uploads);
        proof {
            lemma_new_keys_alive(s, old(self).placed_models as int, s.len() as int);
            assert forall|i: int| 0 <= i < g1@.len() implies self.keys@[#[trigger] g1@[i]].live by {
                assert(rewritten(ok[g1@[i]], s));
            }
        }
        let ghost w1 = self.words@;
        let g2 = self.place_new(&nkv, scene, &mut uploads, g1, Ghost(old(self).words@));
        let ghost keys2 = self.keys@;
        let ghost w2 = self.words@;
        proof {
            assert forall|i: int| 0 <= i < g2@.len() implies #[trigger] g2@[i] >= gone@.len() || keys2[g2@[i]].live by {
                if i < g1@.len() {
                    assert(g2@[i] == g1@[i]);
                    assert(rewritten(ok[g1@[i]], s));
                    assert(!reused(keys1, g1@[i], m));
                }
            }
        }
        let g3 = self.clear_dropped(&gone, &mut uploads, g2, Ghost(old(self).words@));
        let ghost urec = g3@;
        let ghost w3 = self.words@;
        let ghost ups3 = uploads@;
        let n = self.keys.len();
        proof {
            if n > n0 {
                lemma_mul_mono(n as int, kept + m);
            }
            assert(n * RECORD_WORDS <= 0x2000_0000);
            assert(n <= 0x2000_0000) by (nonlinear_arith)
                requires
                    n * RECORD_WORDS <= 0x2000_0000,
            ;
        }
        if n > n0 {
            let w0 = root_bits(n);
            let wc = n as u32;
            self.words.set(0, w0);
            self.words.set(1, wc);
            let mut hw: Vec<u32> = Vec::new();
            hw.push(w0);
            hw.push(wc);
            let ghost prev_ups = uploads@;
            uploads.push(Upload { offset: 0, words: hw });
            proof {
                lemma_apply_push(old(self).words@, prev_ups, uploads@.last());
                assert(apply_upload(w3, uploads@.last()) =~= self.words@);
            }
        }
        let ghost w = self.words@;
        proof {
            assert forall|k: int| 0 <= k < n implies #[trigger] record(w, k) == record(w3, k) by {
                lemma_record_fits(k, n as int);
                assert(record(w, k) =~= record(w3, k));
            }
        }
        let end = scene.len();
        if self.placed_models < end {
            self.placed_models = end;
        }
        let mut mm: usize = 0;
        while mm < end
            invariant
                end == s.len(),
                mm <= end,
                scene.wf(),
                scene@.len() == end,
                forall|j: int| 0 <= j < mm ==> scene@[j] == cleaned(s)[j],
                forall|j: int| mm <= j < end ==> scene@[j] == s[j],
            decreases end - mm,
        {
            if scene.slot_is_live(mm) {
                scene.clear_dirty(mm);
            }
            mm = mm + 1;
        }
        assert(scene@ =~= cleaned(s));
        proof {
            let app = if m > fc { m - fc } else { 0 };
            assert(n == n0 + app);
            assert(nkv@ == new_keys(s, old(self).placed_models as int, s.len() as int));
            assert forall|k: int| 0 <= k < n0 implies #[trigger] self.keys@[k] == if reused(keys1, k, m) {
                nkv@[free_count(keys1, k) as int]
            } else {
                keys1[k]
            } by {
                assert(self.keys@[k] == keys2[k]);
            }
            assert forall|k: int|
                0 <= k < n0 implies #[trigger] record(w, k) == if reused(keys1, k, m) {
                    key_record(self.keys@[k], s)
                } else if stale(ok[k], s) {
                    key_record(ok[k], s)
                } else {
                    record(old(self).words@, k)
                } by {
                assert(record(w, k) == record(w3, k));
                assert(self.keys@[k] == keys2[k]);
                assert(keys1[k] == updated_key(ok[k], s));
                assert(gone@[k] == dropped(ok[k], s));
            }
            assert forall|k: int| n0 <= k < n implies #[trigger] record(w, k) == key_record(self.keys@[k], s) by {
                assert(record(w, k) == record(w3, k));
            }
            let ups = uploads@;
            let nu = urec.len();
            assert forall|i: int|
                0 <= i < uploads@.len() implies (header_upload(#[trigger] uploads@[i], self.words@) && app > 0)
                    || writes_touched(uploads@[i], self.words@, ok, s, m, n as int) by {
                if i < nu {
                    let k = urec[i];
                    assert(ups[i] == ups3[i]);
                    assert(record(w, k) == record(w3, k));
                    assert(record_upload(uploads@[i], self.words@, k));
                    if i < g1@.len() {
                        assert(urec[i] == g1@[i]);
                        assert(rewritten(ok[k], s));
                    } else if i < g2@.len() {
                        assert(urec[i] == g2@[i]);
                    } else {
                        assert(dropped(ok[k], s));
                    }
                    assert(touched(ok, s, m, k));
                } else {
                    assert(ups[i].words@ =~= w.subrange(0, 2));
                }
            }
            assert forall|k: int|
                0 <= k < n as int && #[trigger] touched(ok, s, m, k) implies exists|i: int|
                    0 <= i < uploads@.len() && record_upload(#[trigger] uploads@[i], self.words@, k) by {
                if k >= n0 || reused(keys1, k, m) {
                    assert(covered(g2@, k));
                } else if rewritten(ok[k], s) {
                    assert(exists|i: int| 0 <= i < g1@.len() && #[trigger] g1@[i] == k);
                    let i0 = choose|i: int| 0 <= i < g1@.len() && #[trigger] g1@[i] == k;
                    assert(g2@[i0] == k);
                    assert(covered(g2@, k));
                } else {
                    assert(gone@[k] && !keys2[k].live);
                }
                assert(covered(urec, k));
                let i = choose|i: int| 0 <= i < urec.len() && #[trigger] urec[i] == k;
                assert(ups[i] == ups3[i]);
                assert(record(w, k) == record(w3, k));
                assert(record_upload(uploads@[i], self.words@, k));
            }
            if app > 0 {
                assert(header_upload(ups[ups.len() - 1], w));
            }
            assert forall|i: int, j: int|
                0 <= i < j < uploads@.len() implies (#[trigger] uploads@[i]).offset != (#[trigger] uploads@[j]).offset by {
                assert(ups[i] == ups3[i]);
                assert(ups3[i].offset == 2 + urec[i] * RECORD_WORDS && urec[i] >= 0);
                if j < nu {
                    assert(ups[j] == ups3[j]);
                    assert(urec[i] != urec[j]);
                    assert(ups3[j].offset == 2 + urec[j] * RECORD_WORDS);
                }
            }
            assert(forall|t: int| 0 <= t < app ==> #[trigger] self.keys@[n0 + t] == nkv@[fc + t]);
            assert(self.placed_models == if old(self).placed_models < s.len() {
                s.len() as usize
            } else {
                old(self).placed_models
            });
            assert(self.max_words == old(self).max_words);
            assert(self.wf());
            assert(uploads_exact(uploads@, self.words@, ok, s, m, app, n as int));
            assert forall|k: int| 0 <= k < n && (#[trigger] self.keys@[k]).live implies key_alive(self.keys@[k], s) by {
                if k < n0 {
                    if reused(keys1, k, m) {
                        assert(self.keys@[k] == nkv@[free_count(keys1, k) as int]);
                        lemma_free_count_mono(keys1, k, n0 as int);
                    } else {
                        assert(self.keys@[k] == keys1[k]);
                        assert(keys1[k] == updated_key(ok[k], s));
                    }
                } else {
                    assert(self.keys@[n0 + (k - n0)] == nkv@[fc + (k - n0)]);
                }
            }
        }
        Ok(uploads)
    }
}

/// A sync right after a sync, against the scene the first one left (every
/// brick clean, no model beyond those placed), finds no record to change and
/// no brick to place, so by `sync`'s upload clauses it uploads nothing.
pub proof fn lemma_resync_uploads_nothing(
    keys: Seq<RecordKey>,
    s: Seq<Option<ModelView>>,
    placed: int,
    ups: Seq<Upload>,
    w: Seq<u32>,
)
    requires
        forall|k: int| 0 <= k < keys.len() && (#[trigger] keys[k]).live ==> key_alive(keys[k], s),
        placed >= s.len(),
        uploads_exact(ups, w, keys, cleaned(s), 0, 0, keys.len() as int),
    ensures
        new_keys(cleaned(s), placed, s.len() as int).len() == 0,
        forall|k: int| 0 <= k < keys.len() ==> !#[trigger] touched(keys, cleaned(s), 0, k),
        ups.len() == 0,
{
    let s2 = cleaned(s);
    assert forall|k: int| 0 <= k < keys.len() implies !#[trigger] touched(keys, s2, 0, k) by {
        let key = keys[k];
        if key.live {
            assert(key_alive(key, s));
            assert(s2[key.model as int] == Some(clean_model(s[key.model as int].unwrap())));
            assert(key_alive(key, s2));
            assert(!key_brick(key, s2).dirty);
        }
    }
    if ups.len() > 0 {
        assert(writes_touched(ups[0], w, keys, s2, 0, keys.len() as int));
        let k = choose|k: int|
            0 <= k < keys.len() && touched(keys, s2, 0, k) && #[trigger] record_upload(ups[0], w, k);
        assert(!touched(keys, s2, 0, k));
    }
}

/// A buffer that holds at least one record has a child pointer at its root.
pub proof fn lemma_filled_root_is_child(b: SdfBuilder)
    requires
        b.wf(),
        b.keys@.len() > 0,
    ensures
        b.words@[0] & 1 == 1,
        b.words@[0] >> 1u32 == 1,
{
    crate::sdf::lemma_root_kind(b.keys@.len());
}

/// A sync whose only change is one dirty brick, with every record's brick
/// still in the scene and no model added since the last sync, makes exactly
/// one upload: the record of that brick.
pub proof fn lemma_single_dirty_brick(
    ok: Seq<RecordKey>,
    s: Seq<Option<ModelView>>,
    k0: int,
    ups: Seq<Upload>,
    w: Seq<u32>,
)
    requires
        forall|k: int| 0 <= k < ok.len() && (#[trigger] ok[k]).live ==> key_alive(ok[k], s),
        0 <= k0 < ok.len(),
        ok[k0].live,
        key_brick(ok[k0], s).dirty,
        forall|k: int|
            0 <= k < ok.len() && k != k0 && (#[trigger] ok[k]).live ==> !key_brick(ok[k], s).dirty,
        uploads_exact(ups, w, ok, s, 0, 0, ok.len() as int),
    ensures
        ups.len() == 1,
        record_upload(ups[0], w, k0),
{
    assert(touched(ok, s, 0, k0));
    assert forall|k: int| 0 <= k < ok.len() && k != k0 implies !#[trigger] touched(ok, s, 0, k) by {
        if ok[k].live {
            assert(key_alive(ok[k], s));
        }
    }
    assert forall|i: int| 0 <= i < ups.len() implies record_upload(#[trigger] ups[i], w, k0) by {
        assert(writes_touched(ups[i], w, ok, s, 0, ok.len() as int));
        let k = choose|k: int|
            0 <= k < ok.len() && touched(ok, s, 0, k) && #[trigger] record_upload(ups[i], w, k);
        assert(k == k0);
    }
    let i0 = choose|i: int| 0 <= i < ups.len() && record_upload(#[trigger] ups[i], w, k0);
    if ups.len() > 1 {
        assert(record_upload(ups[0], w, k0) && record_upload(ups[1], w, k0));
        assert(ups[0].offset != ups[1].offset);
    }
}

} // verus!
