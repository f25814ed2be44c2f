//! The catalogue of the cache: which objects it holds, what they refer to,
//! which of them are pinned and how many bytes they take.
//!
//! A row exists if and only if its blob does. The service that receives
//! uploads owns every write; the one that serves them only moves
//! `last_accessed_at`.

use vstd::prelude::*;
use vstd::string::*;
use vstd::utf8::{
    decode_utf8, encode_utf8, encode_utf8_decode_utf8, encode_utf8_valid_utf8, is_ascii_chars,
    is_ascii_chars_encode_utf8, is_char_boundary, is_char_boundary_iff_not_is_continuation_byte,
    is_char_boundary_start_end_of_seq,
};

use crate::order::{sort_texts, sorted_texts, text_leq, text_leq_total};
use crate::table::{by_key_update, has_key, key_index, placed, row_under_its_key, Keyed, Table};
use crate::text::{from_range, opt_text, same, text_le, text_lt, texts, to_chars};

verus! {

/// How stale `pushed_at` must be before a negotiation rewrites it: a closure
/// pushed from several jobs of one run costs one write per path, not one per
/// job.
pub const PUSHED_AT_DEBOUNCE: i64 = 3600;

/// How old the cutoff of a prune must be at least, so that a push in progress
/// keeps its closure.
pub const PRUNE_MIN_AGE: i64 = 86400;

/// One cached store path, keyed by its store path hash.
#[derive(Debug, PartialEq, Eq)]
pub struct Object {
    /// The store path hash: the object's key, and through it the blob's.
    pub store_path_hash: String,
    /// The full store path.
    pub store_path: String,
    /// The basename after the hash.
    pub name: String,
    /// Hash of the uncompressed NAR, as the client claims it.
    pub nar_hash: String,
    /// Size of the uncompressed NAR in bytes.
    pub nar_size: i64,
    /// Hash of the stored blob.
    pub file_hash: String,
    /// Size of the stored blob in bytes; what usage counts.
    pub file_size: i64,
    /// The deriver's store path, where the client reported one.
    pub deriver: Option<String>,
    /// The content address of a content-addressed path.
    pub ca: Option<String>,
    /// Basenames of the references, as a narinfo prints them.
    pub references: Vec<String>,
    /// Signatures, `<key name>:<base64>` each.
    pub sigs: Vec<String>,
    /// The subject that pushed the object.
    pub pushed_by: Option<String>,
}

/// What an [`Object`] holds.
#[verifier::ext_equal]
pub struct ObjectView {
    /// See [`Object::store_path_hash`].
    pub store_path_hash: Seq<char>,
    /// See [`Object::store_path`].
    pub store_path: Seq<char>,
    /// See [`Object::name`].
    pub name: Seq<char>,
    /// See [`Object::nar_hash`].
    pub nar_hash: Seq<char>,
    /// See [`Object::nar_size`].
    pub nar_size: i64,
    /// See [`Object::file_hash`].
    pub file_hash: Seq<char>,
    /// See [`Object::file_size`].
    pub file_size: i64,
    /// See [`Object::deriver`].
    pub deriver: Option<Seq<char>>,
    /// See [`Object::ca`].
    pub ca: Option<Seq<char>>,
    /// See [`Object::references`].
    pub references: Seq<Seq<char>>,
    /// See [`Object::sigs`].
    pub sigs: Seq<Seq<char>>,
    /// See [`Object::pushed_by`].
    pub pushed_by: Option<Seq<char>>,
}

impl View for Object {
    type V = ObjectView;

    open spec fn view(&self) -> ObjectView {
        ObjectView {
            store_path_hash: self.store_path_hash@,
            store_path: self.store_path@,
            name: self.name@,
            nar_hash: self.nar_hash@,
            nar_size: self.nar_size,
            file_hash: self.file_hash@,
            file_size: self.file_size,
            deriver: opt_text(self.deriver),
            ca: opt_text(self.ca),
            references: texts(self.references@),
            sigs: texts(self.sigs@),
            pushed_by: opt_text(self.pushed_by),
        }
    }
}

/// A copy of an optional string.
pub fn copy_opt(v: &Option<String>) -> (r: Option<String>)
    ensures
        opt_text(r) == opt_text(*v),
{
    match v {
        Some(s) => Some(s.clone()),
        None => None,
    }
}

/// A copy of a list of strings.
pub fn copy_texts(v: &Vec<String>) -> (r: Vec<String>)
    ensures
        texts(r@) == texts(v@),
{
    let mut out: Vec<String> = Vec::new();
    let mut i: usize = 0;
    while i < v.len()
        invariant
            i <= v@.len(),
            out@.len() == i,
            forall|k: int| 0 <= k < i ==> (#[trigger] out@[k])@ == v@[k]@,
        decreases v@.len() - i,
    {
        out.push(v[i].clone());
        i += 1;
    }
    assert(texts(out@) =~= texts(v@));
    out
}

impl Clone for Object {
    fn clone(&self) -> (r: Self)
        ensures
            r@ == self@,
    {
        Object {
            store_path_hash: self.store_path_hash.clone(),
            store_path: self.store_path.clone(),
            name: self.name.clone(),
            nar_hash: self.nar_hash.clone(),
            nar_size: self.nar_size,
            file_hash: self.file_hash.clone(),
            file_size: self.file_size,
            deriver: copy_opt(&self.deriver),
            ca: copy_opt(&self.ca),
            references: copy_texts(&self.references),
            sigs: copy_texts(&self.sigs),
            pushed_by: copy_opt(&self.pushed_by),
        }
    }
}

/// One row of the catalogue.
pub struct Row {
    /// The object; its references stand in order.
    pub object: Object,
    /// Unix time of the upload that stored it.
    pub created_at: i64,
    /// Unix time of the last access, to the day.
    pub last_accessed_at: i64,
    /// Unix time of the last push or negotiation, to the hour.
    pub pushed_at: i64,
}

/// What a [`Row`] holds.
#[verifier::ext_equal]
pub struct RowView {
    /// See [`Row::object`].
    pub object: ObjectView,
    /// See [`Row::created_at`].
    pub created_at: i64,
    /// See [`Row::last_accessed_at`].
    pub last_accessed_at: i64,
    /// See [`Row::pushed_at`].
    pub pushed_at: i64,
}

impl View for Row {
    type V = RowView;

    open spec fn view(&self) -> RowView {
        RowView {
            object: self.object@,
            created_at: self.created_at,
            last_accessed_at: self.last_accessed_at,
            pushed_at: self.pushed_at,
        }
    }
}

impl Keyed for Row {
    open spec fn key_of(v: RowView) -> Seq<char> {
        v.object.store_path_hash
    }

    fn key(&self) -> (r: &str) {
        self.object.store_path_hash.as_str()
    }
}

/// One pin: a root that eviction and pruning leave alone.
pub struct PinRow {
    /// The operator's name for it.
    pub name: String,
    /// Store path hash of the pinned object.
    pub store_path_hash: String,
    /// Unix time from which it protects nothing; `None` is never.
    pub expires_at: Option<i64>,
    /// Unix time at which it was set.
    pub created_at: i64,
}

/// What a [`PinRow`] holds.
#[verifier::ext_equal]
pub struct PinView {
    /// See [`PinRow::name`].
    pub name: Seq<char>,
    /// See [`PinRow::store_path_hash`].
    pub store_path_hash: Seq<char>,
    /// See [`PinRow::expires_at`].
    pub expires_at: Option<i64>,
    /// See [`PinRow::created_at`].
    pub created_at: i64,
}

impl View for PinRow {
    type V = PinView;

    open spec fn view(&self) -> PinView {
        PinView {
            name: self.name@,
            store_path_hash: self.store_path_hash@,
            expires_at: self.expires_at,
            created_at: self.created_at,
        }
    }
}

impl Keyed for PinRow {
    open spec fn key_of(v: PinView) -> Seq<char> {
        v.name
    }

    fn key(&self) -> (r: &str) {
        self.name.as_str()
    }
}

impl Keyed for String {
    open spec fn key_of(v: Seq<char>) -> Seq<char> {
        v
    }

    fn key(&self) -> (r: &str) {
        self.as_str()
    }
}

/// What [`hash_of`] returns for a basename.
pub open spec fn hash_prefix(basename: Seq<char>) -> Seq<char> {
    if is_char_boundary(encode_utf8(basename), 32) {
        decode_utf8(encode_utf8(basename).subrange(0, 32))
    } else {
        basename
    }
}

/// The hash at the front of a basename `<hash>-<name>`: its first 32 bytes.
/// A basename that cannot be cut there is returned whole, and matches nothing.
pub fn hash_of(basename: &str) -> (r: &str)
    ensures
        r@ == hash_prefix(basename@),
{
    if basename.is_char_boundary(32) {
        let (head, _) = basename.split_at(32);
        proof {
            vstd::utf8::encode_utf8_decode_utf8(head@);
            assert(head.spec_bytes() == encode_utf8(head@));
        }
        head
    } else {
        basename
    }
}

/// The store path hash that a reference points to: its first 32 characters.
pub open spec fn reference_hash(reference: Seq<char>) -> Seq<char> {
    if reference.len() <= 32 {
        reference
    } else {
        reference.take(32)
    }
}

/// The store path hash that a reference points to.
pub fn target_of(reference: &str) -> (r: String)
    ensures
        r@ == reference_hash(reference@),
{
    let chars = to_chars(reference);
    let end: usize = if chars.len() <= 32 {
        chars.len()
    } else {
        32
    };
    let r = from_range(&chars, 0, end);
    assert(reference@.subrange(0, end as int) =~= reference_hash(reference@));
    r
}

/// The whole catalogue.
pub struct Db {
    /// The objects by store path hash.
    pub objects: Table<Row>,
    /// The pins by name.
    pub pins: Table<PinRow>,
    /// The maintained usage counter.
    pub total_bytes: i64,
}

/// What a [`Db`] holds.
#[verifier::ext_equal]
pub struct DbView {
    /// The objects by store path hash.
    pub objects: Map<Seq<char>, RowView>,
    /// The pins by name.
    pub pins: Map<Seq<char>, PinView>,
    /// The maintained usage counter.
    pub total_bytes: i64,
}

impl View for Db {
    type V = DbView;

    open spec fn view(&self) -> DbView {
        DbView { objects: self.objects@, pins: self.pins@, total_bytes: self.total_bytes }
    }
}

/// Why the catalogue refused a request.
#[derive(Debug, PartialEq, Eq)]
pub enum DbError {
    /// The object lists a reference twice.
    DuplicateReference,
    /// The hash to pin is not in the cache.
    NotInCache {
        /// The hash.
        hash: String,
    },
    /// The cutoff of a prune is not old enough.
    CutoffTooRecent,
    /// The objects to prune refer to each other in a cycle.
    ReferenceCycle,
}

impl DbError {
    /// What the operator is told.
    pub open spec fn text(self) -> Seq<char> {
        match self {
            DbError::DuplicateReference => "an object lists a reference twice"@,
            DbError::NotInCache { hash } => hash@
                + " is not in the cache \u{2014} nothing to pin"@,
            DbError::CutoffTooRecent =>
                "the cutoff must be at least 24 hours ago, so a push in progress keeps its closure"@,
            DbError::ReferenceCycle =>
                "reference cycle among objects to prune; nothing deleted"@,
        }
    }

    /// What the operator is told.
    pub fn message(&self) -> (r: String)
        ensures
            r@ == self.text(),
    {
        match self {
            DbError::DuplicateReference => "an object lists a reference twice".to_owned(),
            DbError::NotInCache { hash } => hash.clone().concat(
                " is not in the cache \u{2014} nothing to pin",
            ),
            DbError::CutoffTooRecent =>
                "the cutoff must be at least 24 hours ago, so a push in progress keeps its closure".to_owned(),
            DbError::ReferenceCycle =>
                "reference cycle among objects to prune; nothing deleted".to_owned(),
        }
    }
}

/// The bytes that the blobs of `rows` take together.
pub open spec fn sum_sizes(rows: Seq<Row>) -> int
    decreases rows.len(),
{
    if rows.len() == 0 {
        0
    } else {
        sum_sizes(rows.drop_last()) + rows.last().object.file_size
    }
}

proof fn sum_sizes_insert(rows: Seq<Row>, at: int, r: Row)
    requires
        0 <= at <= rows.len(),
    ensures
        sum_sizes(rows.insert(at, r)) == sum_sizes(rows) + r.object.file_size,
    decreases rows.len(),
{
    let new = rows.insert(at, r);
    if at == rows.len() {
        assert(new.drop_last() =~= rows);
    } else {
        assert(new.drop_last() =~= rows.drop_last().insert(at, r));
        sum_sizes_insert(rows.drop_last(), at, r);
    }
}

proof fn sum_sizes_remove(rows: Seq<Row>, at: int)
    requires
        0 <= at < rows.len(),
    ensures
        sum_sizes(rows.remove(at)) == sum_sizes(rows) - rows[at].object.file_size,
{
    assert(rows.remove(at).insert(at, rows[at]) =~= rows);
    sum_sizes_insert(rows.remove(at), at, rows[at]);
}

proof fn sum_sizes_update(rows: Seq<Row>, at: int, r: Row)
    requires
        0 <= at < rows.len(),
    ensures
        sum_sizes(rows.update(at, r)) == sum_sizes(rows) - rows[at].object.file_size
            + r.object.file_size,
{
    sum_sizes_remove(rows, at);
    assert(rows.remove(at).insert(at, r) =~= rows.update(at, r));
    sum_sizes_insert(rows.remove(at), at, r);
}

proof fn sum_sizes_nonnegative(rows: Seq<Row>)
    requires
        forall|i: int| 0 <= i < rows.len() ==> (#[trigger] rows[i]).object.file_size >= 0,
    ensures
        sum_sizes(rows) >= 0,
    decreases rows.len(),
{
    if rows.len() > 0 {
        assert(rows.last() == rows[rows.len() - 1]);
        assert forall|i: int| 0 <= i < rows.drop_last().len() implies (
        #[trigger] rows.drop_last()[i]).object.file_size >= 0 by {
            assert(rows.drop_last()[i] == rows[i]);
        }
        sum_sizes_nonnegative(rows.drop_last());
    }
}

impl DbView {
    /// Every object stands under its own hash.
    pub open spec fn rows_under_their_hash(self) -> bool {
        forall|h: Seq<char>| #[trigger]
            self.objects.dom().contains(h) ==> self.objects[h].object.store_path_hash == h
    }

    /// The object under `a` refers to the one under `b`.
    pub open spec fn refers(self, a: Seq<char>, b: Seq<char>) -> bool {
        &&& self.objects.dom().contains(a)
        &&& exists|k: int|
            0 <= k < self.objects[a].object.references.len() && reference_hash(
                #[trigger] self.objects[a].object.references[k],
            ) == b
    }

    /// Some other object refers to `h`.
    pub open spec fn referenced(self, h: Seq<char>) -> bool {
        exists|a: Seq<char>| a != h && #[trigger] self.refers(a, h)
    }

    /// A pin protects `h` at `now`.
    pub open spec fn pinned(self, h: Seq<char>, now: i64) -> bool {
        exists|n: Seq<char>| #[trigger]
            self.pins.dom().contains(n) && self.pins[n].store_path_hash == h && self.pins[n].live(
                now,
            )
    }

    /// What the row of `obj` holds when it is stored at `now`.
    pub open spec fn stored(obj: ObjectView, now: i64) -> RowView {
        RowView {
            object: ObjectView { references: sorted_texts(obj.references), ..obj },
            created_at: now,
            last_accessed_at: now,
            pushed_at: now,
        }
    }

    /// The size counted for `h`: its blob's, or nothing if there is none.
    pub open spec fn size_of(self, h: Seq<char>) -> int {
        if self.objects.dom().contains(h) {
            self.objects[h].object.file_size as int
        } else {
            0
        }
    }
}

/// In a well-formed catalogue every object stands under its own hash.
pub proof fn rows_stand_under_their_hash(db: &Db)
    requires
        db.wf(),
    ensures
        db@.rows_under_their_hash(),
{
    assert forall|h: Seq<char>| #[trigger]
        db@.objects.dom().contains(h) implies db@.objects[h].object.store_path_hash == h by {
        row_under_its_key(db.objects.rows@, key_index(db.objects.rows@, h));
    }
}

impl PinView {
    /// The pin protects its object at `now`.
    pub open spec fn live(self, now: i64) -> bool {
        match self.expires_at {
            None => true,
            Some(t) => t > now,
        }
    }
}

impl Db {
    /// Both tables are in order, no blob has a negative size and every pin
    /// stands on an object.
    pub open spec fn wf(self) -> bool {
        &&& self.objects.wf()
        &&& self.pins.wf()
        &&& forall|h: Seq<char>| #[trigger]
            self@.objects.dom().contains(h) ==> self@.objects[h].object.file_size >= 0
        &&& forall|n: Seq<char>| #[trigger]
            self@.pins.dom().contains(n) ==> self@.objects.dom().contains(
                self@.pins[n].store_path_hash,
            )
    }

    /// The counter is what the blobs take.
    pub open spec fn counted(self) -> bool {
        self.total_bytes == sum_sizes(self.objects.rows@)
    }

    /// An empty catalogue.
    pub fn new() -> (r: Self)
        ensures
            r.wf(),
            r.counted(),
            r@.objects == Map::<Seq<char>, RowView>::empty(),
            r@.pins == Map::<Seq<char>, PinView>::empty(),
            r@.total_bytes == 0,
    {
        Db { objects: Table::new(), pins: Table::new(), total_bytes: 0 }
    }
}

/// Stores `obj`, in place of what stood under its hash: only ever called
/// once the blob is durable. A pin on the object stays, and bytes already
/// counted are not counted twice.
pub fn insert_object(db: &mut Db, obj: &Object, now: i64) -> (r: Result<(), DbError>)
    requires
        old(db).wf(),
        obj.file_size >= 0,
        i64::MIN <= old(db).total_bytes + obj.file_size - old(db)@.size_of(
            obj.store_path_hash@,
        ) <= i64::MAX,
    ensures
        r is Err <==> !obj@.references.no_duplicates(),
        r matches Err(e) ==> e == DbError::DuplicateReference && *final(db) == *old(db),
        final(db).wf(),
        r is Ok ==> {
            &&& final(db)@.objects == old(db)@.objects.insert(
                obj.store_path_hash@,
                DbView::stored(obj@, now),
            )
            &&& final(db)@.pins == old(db)@.pins
            &&& final(db).total_bytes == old(db).total_bytes + obj.file_size - old(db)@.size_of(obj.store_path_hash@)
        },
        old(db).counted() ==> final(db).counted(),
{
    let references = sort_texts(&obj.references);
    proof {
        sorted_keeps_duplicates(obj@.references);
    }
    if repeats(&references) {
        return Err(DbError::DuplicateReference);
    }
    let previous: i64 = match db.objects.get(obj.store_path_hash.as_str()) {
        Some(row) => row.object.file_size,
        None => 0,
    };
    let mut object = obj.clone();
    object.references = references;
    let row = Row { object, created_at: now, last_accessed_at: now, pushed_at: now };
    let ghost rows = db.objects.rows@;
    let ghost h = obj.store_path_hash@;
    assert(row@ =~= DbView::stored(obj@, now));
    db.objects.put(row);
    proof {
        let at = choose|at: int| placed(rows, db.objects.rows@, row, at);
        if has_key(rows, h) {
            sum_sizes_update(rows, at, row);
            row_under_its_key(rows, at);
        } else {
            sum_sizes_insert(rows, at, row);
        }
    }
    // Both differences stay in range as one: the sum is what must fit.
    let total: i128 = db.total_bytes as i128 + obj.file_size as i128 - previous as i128;
    db.total_bytes = total as i64;
    Ok(())
}

/// Whether a sorted list of strings holds one of them twice.
fn repeats(v: &Vec<String>) -> (r: bool)
    requires
        vstd::relations::sorted_by(texts(v@), crate::order::text_leq()),
    ensures
        r == !texts(v@).no_duplicates(),
{
    let mut i: usize = 1;
    while i < v.len()
        invariant
            1 <= i,
            i <= v@.len() || v@.len() == 0,
            forall|k: int| 1 <= k < i ==> texts(v@)[k - 1] != #[trigger] texts(v@)[k],
        decreases v@.len() - i,
    {
        if same(v[i - 1].as_str(), v[i].as_str()) {
            assert(texts(v@)[i - 1] == texts(v@)[i as int]);
            return true;
        }
        i += 1;
    }
    proof {
        let t = texts(v@);
        crate::order::text_leq_total();
        let leq = crate::order::text_leq();
        assert forall|a: int, b: int| 0 <= a < t.len() && 0 <= b < t.len() && a != b implies t[a]
            != t[b] by {
            let (x, y) = if a < b { (a, b) } else { (b, a) };
            if t[x] == t[y] {
                assert(leq(t[x], t[x + 1]));
                if x + 1 < y {
                    assert(leq(t[x + 1], t[y]));
                }
                assert(t[x] == t[x + 1]);
                assert(t[x + 1 - 1] != t[x + 1]);
            }
        }
    }
    false
}

/// Sorting neither makes nor removes duplicates, and the result is in order.
proof fn sorted_keeps_duplicates(s: Seq<Seq<char>>)
    ensures
        sorted_texts(s).no_duplicates() == s.no_duplicates(),
        vstd::relations::sorted_by(sorted_texts(s), crate::order::text_leq()),
{
    crate::order::text_leq_total();
    s.lemma_sort_by_ensures(crate::order::text_leq());
    let t = sorted_texts(s);
    if s.no_duplicates() {
        s.lemma_multiset_has_no_duplicates();
        t.lemma_multiset_has_no_duplicates_conv();
    }
    if t.no_duplicates() {
        t.lemma_multiset_has_no_duplicates();
        s.lemma_multiset_has_no_duplicates_conv();
    }
}

/// The object under `hash`, its references in order, ready for a narinfo.
pub fn get_object(db: &Db, hash: &str) -> (r: Option<Object>)
    requires
        db.wf(),
    ensures
        match r {
            Some(obj) => db@.objects.dom().contains(hash@) && obj@ == db@.objects[hash@].object,
            None => !db@.objects.dom().contains(hash@),
        },
{
    match db.objects.get(hash) {
        Some(row) => Some(row.object.clone()),
        None => None,
    }
}

/// The object under `hash` with the time of its last access: one lookup tells
/// whether a hit needs a bump.
pub fn get_object_and_last_accessed(db: &Db, hash: &str) -> (r: Option<(Object, i64)>)
    requires
        db.wf(),
    ensures
        match r {
            Some(pair) => db@.objects.dom().contains(hash@) && pair.0@ == db@.objects[hash@].object
                && pair.1 == db@.objects[hash@].last_accessed_at,
            None => !db@.objects.dom().contains(hash@),
        },
{
    match db.objects.get(hash) {
        Some(row) => Some((row.object.clone(), row.last_accessed_at)),
        None => None,
    }
}

/// Whether the cache holds this store path hash.
pub fn object_exists(db: &Db, hash: &str) -> (r: bool)
    requires
        db.wf(),
    ensures
        r == db@.objects.dom().contains(hash@),
{
    db.objects.has(hash)
}

/// The usage counter.
pub fn total_bytes(db: &Db) -> (r: i64)
    ensures
        r == db@.total_bytes,
{
    db.total_bytes
}

/// Derives the usage counter anew from the rows, so that drift is corrected
/// and not compounded.
pub fn reconcile_total_bytes(db: &mut Db) -> (r: i64)
    requires
        old(db).wf(),
        sum_sizes(old(db).objects.rows@) <= i64::MAX,
    ensures
        r == sum_sizes(old(db).objects.rows@),
        final(db).objects == old(db).objects,
        final(db).pins == old(db).pins,
        final(db).total_bytes == r,
        final(db).wf(),
        final(db).counted(),
{
    let mut sum: i64 = 0;
    let mut i: usize = 0;
    while i < db.objects.rows.len()
        invariant
            *db == *old(db),
            db.wf(),
            i <= db.objects.rows@.len(),
            sum == sum_sizes(db.objects.rows@.take(i as int)),
            sum_sizes(db.objects.rows@) <= i64::MAX,
            sum >= 0,
        decreases db.objects.rows@.len() - i,
    {
        proof {
            let rows = db.objects.rows@;
            sizes_not_negative(db);
            sum_sizes_take_grows(rows, i as int + 1);
            assert(rows.take(i as int + 1).drop_last() =~= rows.take(i as int));
            assert(rows[i as int].object.file_size >= 0);
        }
        sum = sum + db.objects.rows[i].object.file_size;
        i += 1;
    }
    assert(db.objects.rows@.take(i as int) =~= db.objects.rows@);
    db.total_bytes = sum;
    sum
}

/// No row of a well-formed catalogue has a negative size.
proof fn sizes_not_negative(db: &Db)
    requires
        db.wf(),
    ensures
        forall|i: int|
            0 <= i < db.objects.rows@.len() ==> (
            #[trigger] db.objects.rows@[i]).object.file_size >= 0,
{
    assert forall|i: int| 0 <= i < db.objects.rows@.len() implies (
    #[trigger] db.objects.rows@[i]).object.file_size >= 0 by {
        row_under_its_key(db.objects.rows@, i);
    }
}

proof fn sum_sizes_take_grows(rows: Seq<Row>, n: int)
    requires
        0 <= n <= rows.len(),
        forall|i: int| 0 <= i < rows.len() ==> (#[trigger] rows[i]).object.file_size >= 0,
    ensures
        sum_sizes(rows.take(n)) <= sum_sizes(rows),
    decreases rows.len() - n,
{
    if n < rows.len() {
        sum_sizes_take_grows(rows, n + 1);
        assert(rows.take(n + 1).drop_last() =~= rows.take(n));
        assert(rows.take(n + 1).last() == rows[n]);
    } else {
        assert(rows.take(n) =~= rows);
    }
}

/// Sets or replaces a pin. The hash must be in the cache.
pub fn pin(db: &mut Db, name: &str, hash: &str, expires_at: Option<i64>, now: i64) -> (r: Result<
    (),
    DbError,
>)
    requires
        old(db).wf(),
    ensures
        final(db).wf(),
        r is Ok <==> old(db)@.objects.dom().contains(hash@),
        final(db).objects == old(db).objects,
        final(db).total_bytes == old(db).total_bytes,
        match r {
            Ok(_) => final(db)@.pins == old(db)@.pins.insert(
                name@,
                PinView { name: name@, store_path_hash: hash@, expires_at, created_at: now },
            ),
            Err(e) => e is NotInCache && e->hash@ == hash@ && *final(db) == *old(db),
        },
{
    if !db.objects.has(hash) {
        return Err(DbError::NotInCache { hash: hash.to_owned() });
    }
    let row = PinRow {
        name: name.to_owned(),
        store_path_hash: hash.to_owned(),
        expires_at,
        created_at: now,
    };
    assert(row@ =~= PinView { name: name@, store_path_hash: hash@, expires_at, created_at: now });
    db.pins.put(row);
    Ok(())
}

/// Removes a pin. `false` means that no pin had that name.
pub fn unpin(db: &mut Db, name: &str) -> (r: bool)
    requires
        old(db).wf(),
    ensures
        final(db).wf(),
        r == old(db)@.pins.dom().contains(name@),
        final(db)@.pins == old(db)@.pins.remove(name@),
        final(db).objects == old(db).objects,
        final(db).total_bytes == old(db).total_bytes,
{
    db.pins.delete(name).is_some()
}

/// `pins` without those on `h`.
pub open spec fn pins_without(pins: Map<Seq<char>, PinView>, h: Seq<char>) -> Map<
    Seq<char>,
    PinView,
> {
    Map::new(
        |n: Seq<char>| pins.dom().contains(n) && pins[n].store_path_hash != h,
        |n: Seq<char>| pins[n],
    )
}

/// Removes every pin on `hash`.
fn drop_pins_of(pins: &mut Table<PinRow>, hash: &str)
    requires
        old(pins).wf(),
    ensures
        final(pins).wf(),
        final(pins)@ == pins_without(old(pins)@, hash@),
{
    let ghost all = pins@;
    let mut i: usize = 0;
    while i < pins.rows.len()
        invariant
            pins.wf(),
            i <= pins.rows@.len(),
            forall|k: int| 0 <= k < i ==> (#[trigger] pins.rows@[k]).store_path_hash@ != hash@,
            forall|n: Seq<char>| #[trigger]
                pins@.dom().contains(n) ==> all.dom().contains(n) && pins@[n] == all[n],
            forall|n: Seq<char>| #[trigger]
                all.dom().contains(n) && all[n].store_path_hash != hash@ ==> pins@.dom().contains(n),
        decreases pins.rows@.len() - i,
    {
        if same(pins.rows[i].store_path_hash.as_str(), hash) {
            proof {
                row_under_its_key(pins.rows@, i as int);
            }
            let _ = pins.remove_at(i);
        } else {
            i += 1;
        }
    }
    proof {
        assert forall|n: Seq<char>| #[trigger] pins@.dom().contains(n) implies pins@[n].store_path_hash
            != hash@ by {
            let k = key_index(pins.rows@, n);
            assert(pins.rows@[k].store_path_hash@ != hash@);
        }
        assert(pins@ =~= pins_without(all, hash@));
    }
}

/// `objects` without those under a hash in `gone`.
pub open spec fn objects_less(objects: Map<Seq<char>, RowView>, gone: Set<Seq<char>>) -> Map<
    Seq<char>,
    RowView,
> {
    Map::new(
        |h: Seq<char>| objects.dom().contains(h) && !gone.contains(h),
        |h: Seq<char>| objects[h],
    )
}

/// `pins` without those on a hash in `gone`.
pub open spec fn pins_less(pins: Map<Seq<char>, PinView>, gone: Set<Seq<char>>) -> Map<
    Seq<char>,
    PinView,
> {
    Map::new(
        |n: Seq<char>| pins.dom().contains(n) && !gone.contains(pins[n].store_path_hash),
        |n: Seq<char>| pins[n],
    )
}

/// The blobs of a well-formed catalogue take no negative number of bytes.
pub proof fn sum_is_not_negative(db: &Db)
    requires
        db.wf(),
    ensures
        sum_sizes(db.objects.rows@) >= 0,
{
    sizes_not_negative(db);
    sum_sizes_nonnegative(db.objects.rows@);
}

/// One blob takes no more than all of them together.
pub proof fn sum_bounds_row(db: &Db, h: Seq<char>)
    requires
        db.wf(),
        db@.objects.dom().contains(h),
    ensures
        0 <= db@.objects[h].object.file_size <= sum_sizes(db.objects.rows@),
{
    let rows = db.objects.rows@;
    let at = key_index(rows, h);
    row_under_its_key(rows, at);
    sizes_not_negative(db);
    sum_sizes_remove(rows, at);
    let rest = rows.remove(at);
    assert forall|i: int| 0 <= i < rest.len() implies (#[trigger] rest[i]).object.file_size >= 0 by {
        let j = if i < at { i } else { i + 1 };
        assert(rest[i] == rows[j]);
    }
    sum_sizes_nonnegative(rest);
}

/// What `a` becomes when `b` is taken off it, but never less than nothing.
pub open spec fn debited(a: int, b: int) -> int {
    if a - b > 0 {
        a - b
    } else {
        0
    }
}

/// `db` without the object under `h` and the pins on it.
pub open spec fn without(db: DbView, h: Seq<char>) -> DbView {
    DbView {
        objects: db.objects.remove(h),
        pins: pins_without(db.pins, h),
        total_bytes: debited(db.total_bytes as int, db.size_of(h)) as i64,
    }
}

/// Removes the object with its references and pins and takes its size off the
/// usage counter; returns that size. The blob is deleted afterwards, so that
/// a failure leaves an orphan for the sweep and not a row without a blob.
pub fn delete_object(db: &mut Db, hash: &str) -> (r: i64)
    requires
        old(db).wf(),
        i64::MIN <= old(db).total_bytes - old(db)@.size_of(hash@),
    ensures
        final(db).wf(),
        r == old(db)@.size_of(hash@),
        final(db)@ == without(old(db)@, hash@),
        old(db).counted() ==> final(db).counted(),
        sum_sizes(final(db).objects.rows@) == sum_sizes(old(db).objects.rows@) - r,
        final(db).objects.rows@.len() == old(db).objects.rows@.len() - if old(
            db,
        )@.objects.dom().contains(hash@) {
            1int
        } else {
            0int
        },
{
    let ghost rows = db.objects.rows@;
    let size: i64 = match db.objects.delete(hash) {
        Some(row) => {
            proof {
                let at = choose|at: int|
                    0 <= at < rows.len() && rows[at] == row && db.objects.rows@
                        == #[trigger] rows.remove(at);
                sum_sizes_remove(rows, at);
                assert(row.object.file_size >= 0);
            }
            row.object.file_size
        },
        None => {
            assert(db@.objects =~= old(db)@.objects.remove(hash@));
            0
        },
    };
    drop_pins_of(&mut db.pins, hash);
    let left: i64 = db.total_bytes - size;
    db.total_bytes = if left > 0 {
        left
    } else {
        0
    };
    proof {
        assert(db@ =~= without(old(db)@, hash@));
        if old(db).counted() {
            sizes_not_negative(db);
            sum_sizes_nonnegative(db.objects.rows@);
        }
    }
    size
}

/// Replaces the signatures of the object under `hash`.
pub fn update_sigs(db: &mut Db, hash: &str, sigs: &Vec<String>)
    requires
        old(db).wf(),
    ensures
        final(db).wf(),
        final(db)@.pins == old(db)@.pins,
        final(db).total_bytes == old(db).total_bytes,
        !old(db)@.objects.dom().contains(hash@) ==> final(db)@ == old(db)@,
        old(db)@.objects.dom().contains(hash@) ==> final(db)@.objects == old(db)@.objects.insert(
            hash@,
            RowView {
                object: ObjectView { sigs: texts(sigs@), ..old(db)@.objects[hash@].object },
                ..old(db)@.objects[hash@]
            },
        ),
        sum_sizes(final(db).objects.rows@) == sum_sizes(old(db).objects.rows@),
{
    let new = copy_texts(sigs);
    match db.objects.find(hash) {
        Some(at) => {
            let ghost rows = db.objects.rows@;
            db.objects.rows[at].object.sigs = new;
            proof {
                let row = db.objects.rows@[at as int];
                assert(db.objects.rows@ =~= rows.update(at as int, row));
                by_key_update(rows, at as int, row);
                sum_sizes_update(rows, at as int, row);
            }
        },
        None => {},
    }
}

/// Every object key.
pub fn all_hashes(db: &Db) -> (r: Table<String>)
    requires
        db.wf(),
    ensures
        r.wf(),
        r@.dom() == db@.objects.dom(),
        forall|h: Seq<char>| #[trigger] r@.dom().contains(h) ==> r@[h] == h,
{
    let mut out: Table<String> = Table::new();
    let mut i: usize = 0;
    while i < db.objects.rows.len()
        invariant
            db.wf(),
            out.wf(),
            i <= db.objects.rows@.len(),
            forall|h: Seq<char>| #[trigger]
                out@.dom().contains(h) <==> exists|k: int|
                    0 <= k < i && (#[trigger] db.objects.rows@[k]).object.store_path_hash@ == h,
            forall|h: Seq<char>| #[trigger] out@.dom().contains(h) ==> out@[h] == h,
        decreases db.objects.rows@.len() - i,
    {
        let ghost before = out@;
        let ghost hi = db.objects.rows@[i as int].object.store_path_hash@;
        out.put(db.objects.rows[i].object.store_path_hash.clone());
        i += 1;
        proof {
            assert forall|h: Seq<char>| #[trigger] out@.dom().contains(h) implies exists|k: int|
                0 <= k < i && (#[trigger] db.objects.rows@[k]).object.store_path_hash@ == h by {
                if h != hi {
                    assert(before.dom().contains(h));
                } else {
                    assert(db.objects.rows@[i - 1].object.store_path_hash@ == h);
                }
            }
        }
    }
    proof {
        assert forall|h: Seq<char>| out@.dom().contains(h) == db@.objects.dom().contains(h) by {
            if out@.dom().contains(h) {
                let k = choose|k: int|
                    0 <= k < i && (#[trigger] db.objects.rows@[k]).object.store_path_hash@ == h;
                row_under_its_key(db.objects.rows@, k);
            }
            if has_key(db.objects.rows@, h) {
                let k = key_index(db.objects.rows@, h);
                assert(db.objects.rows@[k].object.store_path_hash@ == h);
            }
        }
        assert(out@.dom() =~= db@.objects.dom());
    }
    out
}

/// What a check of the rows against the bucket needs to know of a row.
pub struct Brief {
    /// Store path hash.
    pub hash: String,
    /// Name part of the store path.
    pub name: String,
    /// Unix time of the upload.
    pub created_at: i64,
    /// Size of the blob in bytes.
    pub file_size: i64,
}

/// `b` tells of the row that holds `v`.
pub open spec fn brief_of(b: Brief, v: RowView) -> bool {
    &&& b.hash@ == v.object.store_path_hash
    &&& b.name@ == v.object.name
    &&& b.created_at == v.created_at
    &&& b.file_size == v.object.file_size
}

/// One entry per object, in the order of their hashes.
pub fn all_objects_brief(db: &Db) -> (r: Vec<Brief>)
    requires
        db.wf(),
    ensures
        r@.len() == db.objects.rows@.len(),
        forall|i: int| 0 <= i < r@.len() ==> brief_of(#[trigger] r@[i], db.objects.rows@[i]@),
        forall|i: int|
            0 <= i < r@.len() ==> db@.objects.dom().contains((#[trigger] r@[i]).hash@) && brief_of(
                r@[i],
                db@.objects[r@[i].hash@],
            ),
        forall|h: Seq<char>| #[trigger]
            db@.objects.dom().contains(h) ==> exists|i: int|
                0 <= i < r@.len() && (#[trigger] r@[i]).hash@ == h,
        forall|i: int, j: int|
            0 <= i < j < r@.len() ==> text_lt((#[trigger] r@[i]).hash@, (#[trigger] r@[j]).hash@),
{
    let mut out: Vec<Brief> = Vec::new();
    let mut i: usize = 0;
    while i < db.objects.rows.len()
        invariant
            i <= db.objects.rows@.len(),
            out@.len() == i,
            forall|k: int| 0 <= k < i ==> brief_of(#[trigger] out@[k], db.objects.rows@[k]@),
        decreases db.objects.rows@.len() - i,
    {
        let row = &db.objects.rows[i];
        out.push(
            Brief {
                hash: row.object.store_path_hash.clone(),
                name: row.object.name.clone(),
                created_at: row.created_at,
                file_size: row.object.file_size,
            },
        );
        i += 1;
    }
    proof {
        assert forall|k: int| 0 <= k < out@.len() implies db@.objects.dom().contains(
            (#[trigger] out@[k]).hash@,
        ) && brief_of(out@[k], db@.objects[out@[k].hash@]) by {
            row_under_its_key(db.objects.rows@, k);
        }
        assert forall|h: Seq<char>| #[trigger] db@.objects.dom().contains(h) implies exists|k: int|
            0 <= k < out@.len() && (#[trigger] out@[k]).hash@ == h by {
            let k = key_index(db.objects.rows@, h);
            assert(out@[k].hash@ == h);
        }
        assert forall|a: int, b: int| 0 <= a < b < out@.len() implies text_lt(
            (#[trigger] out@[a]).hash@,
            (#[trigger] out@[b]).hash@,
        ) by {
            assert(text_lt(Row::key_of(db.objects.rows@[a]@), Row::key_of(db.objects.rows@[b]@)));
        }
    }
    out
}

/// The objects after those under `hashes` were read at `now`: a row read
/// within the last `stale_after` seconds is left alone.
pub open spec fn bumped(
    objects: Map<Seq<char>, RowView>,
    hashes: Seq<Seq<char>>,
    now: i64,
    stale_after: i64,
) -> Map<Seq<char>, RowView> {
    Map::new(
        |h: Seq<char>| objects.dom().contains(h),
        |h: Seq<char>|
            if hashes.contains(h) && objects[h].last_accessed_at < now - stale_after {
                RowView { last_accessed_at: now, ..objects[h] }
            } else {
                objects[h]
            },
    )
}

/// A read is recorded at its time where the last one on record is stale, and
/// nothing else of any row changes: afterwards every path that was read has an
/// access on record from the last `stale_after` seconds.
pub proof fn reads_are_recorded(
    objects: Map<Seq<char>, RowView>,
    hashes: Seq<Seq<char>>,
    now: i64,
    stale_after: i64,
    h: Seq<char>,
)
    requires
        objects.dom().contains(h),
    ensures
        ({
            let after = bumped(objects, hashes, now, stale_after);
            &&& after.dom() == objects.dom()
            &&& after[h].object == objects[h].object
            &&& after[h].created_at == objects[h].created_at
            &&& after[h].pushed_at == objects[h].pushed_at
            &&& hashes.contains(h) && stale_after >= 0 ==> after[h].last_accessed_at >= now
                - stale_after
            &&& hashes.contains(h) && objects[h].last_accessed_at < now - stale_after
                ==> after[h].last_accessed_at == now
            &&& objects[h].last_accessed_at >= now - stale_after ==> after[h] == objects[h]
            &&& !hashes.contains(h) ==> after[h] == objects[h]
        }),
{
    assert(bumped(objects, hashes, now, stale_after).dom() =~= objects.dom());
}

/// Moves the last access of `hashes` to `now`, but only where the recorded one
/// is older than `stale_after` seconds.
pub fn bump_last_accessed(db: &mut Db, hashes: &Vec<String>, now: i64, stale_after: i64)
    requires
        old(db).wf(),
    ensures
        final(db).wf(),
        final(db)@.objects == bumped(old(db)@.objects, texts(hashes@), now, stale_after),
        final(db)@.pins == old(db)@.pins,
        final(db).total_bytes == old(db).total_bytes,
        sum_sizes(final(db).objects.rows@) == sum_sizes(old(db).objects.rows@),
{
    let mut i: usize = 0;
    let ghost all = db@.objects;
    proof {
        assert(texts(hashes@).take(0) =~= Seq::<Seq<char>>::empty());
        assert(db@.objects =~= bumped(all, texts(hashes@).take(0), now, stale_after));
    }
    while i < hashes.len()
        invariant
            i <= hashes@.len(),
            db.wf(),
            db@.objects == bumped(all, texts(hashes@).take(i as int), now, stale_after),
            db@.pins == old(db)@.pins,
            db.total_bytes == old(db).total_bytes,
            sum_sizes(db.objects.rows@) == sum_sizes(old(db).objects.rows@),
        decreases hashes@.len() - i,
    {
        let ghost before = db@.objects;
        let ghost h = hashes@[i as int]@;
        let ghost seen = texts(hashes@).take(i as int);
        let ghost next = texts(hashes@).take(i as int + 1);
        proof {
            assert(next =~= seen.push(h));
            assert forall|x: Seq<char>| next.contains(x) == (seen.contains(x) || x == h) by {
                if seen.contains(x) {
                    let w = seen.index_of(x);
                    assert(next[w] == x);
                }
                assert(next[i as int] == h);
                if next.contains(x) {
                    let w = next.index_of(x);
                    if w < i {
                        assert(seen[w] == x);
                    }
                }
            }
        }
        match db.objects.find(hashes[i].as_str()) {
            Some(at) => {
                let last: i128 = db.objects.rows[at].last_accessed_at as i128;
                if last < now as i128 - stale_after as i128 {
                    let ghost rows = db.objects.rows@;
                    db.objects.rows[at].last_accessed_at = now;
                    proof {
                        let row = db.objects.rows@[at as int];
                        assert(db.objects.rows@ =~= rows.update(at as int, row));
                        by_key_update(rows, at as int, row);
                        sum_sizes_update(rows, at as int, row);
                        assert(row@ =~= RowView { last_accessed_at: now, ..before[h] });
                    }
                }
            },
            None => {},
        }
        i += 1;
        assert(db@.objects =~= bumped(all, next, now, stale_after));
    }
    assert(texts(hashes@).take(i as int) =~= texts(hashes@));
}

/// The objects after `hashes` were negotiated at `now`: one whose push is
/// recorded within the last hour is left alone.
pub open spec fn negotiated(
    objects: Map<Seq<char>, RowView>,
    hashes: Seq<Seq<char>>,
    now: i64,
) -> Map<Seq<char>, RowView> {
    Map::new(
        |h: Seq<char>| objects.dom().contains(h),
        |h: Seq<char>|
            if hashes.contains(h) && objects[h].pushed_at < now - PUSHED_AT_DEBOUNCE {
                RowView { pushed_at: now, ..objects[h] }
            } else {
                objects[h]
            },
    )
}

/// A negotiation counts as a push of every path that it finds, to the hour, and
/// changes nothing else of any row.
pub proof fn negotiations_count_as_pushes(
    objects: Map<Seq<char>, RowView>,
    hashes: Seq<Seq<char>>,
    now: i64,
    h: Seq<char>,
)
    requires
        objects.dom().contains(h),
    ensures
        ({
            let after = negotiated(objects, hashes, now);
            &&& after.dom() == objects.dom()
            &&& after[h].object == objects[h].object
            &&& after[h].created_at == objects[h].created_at
            &&& after[h].last_accessed_at == objects[h].last_accessed_at
            &&& hashes.contains(h) ==> after[h].pushed_at >= now - 3600
            &&& hashes.contains(h) && objects[h].pushed_at < now - 3600 ==> after[h].pushed_at
                == now
            &&& objects[h].pushed_at >= now - 3600 ==> after[h] == objects[h]
            &&& !hashes.contains(h) ==> after[h] == objects[h]
        }),
{
    assert(negotiated(objects, hashes, now).dom() =~= objects.dom());
}

/// The negotiation: those of `hashes` that the cache does not hold, in their
/// order. The client now relies on the others and will not upload them, so
/// they count as pushed now.
pub fn missing(db: &mut Db, hashes: &Vec<String>, now: i64) -> (r: Vec<String>)
    requires
        old(db).wf(),
    ensures
        final(db).wf(),
        texts(r@) == texts(hashes@).filter(
            |h: Seq<char>| !old(db)@.objects.dom().contains(h),
        ),
        final(db)@.objects == negotiated(old(db)@.objects, texts(hashes@), now),
        final(db)@.pins == old(db)@.pins,
        final(db).total_bytes == old(db).total_bytes,
        sum_sizes(final(db).objects.rows@) == sum_sizes(old(db).objects.rows@),
{
    let mut out: Vec<String> = Vec::new();
    let mut i: usize = 0;
    let ghost all = db@.objects;
    let ghost absent = |h: Seq<char>| !old(db)@.objects.dom().contains(h);
    proof {
        assert(texts(hashes@).take(0) =~= Seq::<Seq<char>>::empty());
        assert(db@.objects =~= negotiated(all, texts(hashes@).take(0), now));
        reveal(Seq::filter);
        assert(texts(out@) =~= texts(hashes@).take(0).filter(absent));
    }
    while i < hashes.len()
        invariant
            i <= hashes@.len(),
            db.wf(),
            all == old(db)@.objects,
            absent == (|h: Seq<char>| !old(db)@.objects.dom().contains(h)),
            texts(out@) == texts(hashes@).take(i as int).filter(absent),
            db@.objects == negotiated(all, texts(hashes@).take(i as int), now),
            db@.pins == old(db)@.pins,
            db.total_bytes == old(db).total_bytes,
            sum_sizes(db.objects.rows@) == sum_sizes(old(db).objects.rows@),
        decreases hashes@.len() - i,
    {
        let ghost before = db@.objects;
        let ghost h = hashes@[i as int]@;
        let ghost seen = texts(hashes@).take(i as int);
        let ghost next = texts(hashes@).take(i as int + 1);
        let ghost prior = out@;
        proof {
            assert(next =~= seen.push(h));
            assert(next.drop_last() =~= seen);
            reveal(Seq::filter);
            assert forall|x: Seq<char>| next.contains(x) == (seen.contains(x) || x == h) by {
                if seen.contains(x) {
                    let w = seen.index_of(x);
                    assert(next[w] == x);
                }
                assert(next[i as int] == h);
                if next.contains(x) {
                    let w = next.index_of(x);
                    if w < i {
                        assert(seen[w] == x);
                    }
                }
            }
        }
        match db.objects.find(hashes[i].as_str()) {
            Some(at) => {
                let pushed: i128 = db.objects.rows[at].pushed_at as i128;
                if pushed < now as i128 - PUSHED_AT_DEBOUNCE as i128 {
                    let ghost rows = db.objects.rows@;
                    db.objects.rows[at].pushed_at = now;
                    proof {
                        let row = db.objects.rows@[at as int];
                        assert(db.objects.rows@ =~= rows.update(at as int, row));
                        by_key_update(rows, at as int, row);
                        sum_sizes_update(rows, at as int, row);
                        assert(row@ =~= RowView { pushed_at: now, ..before[h] });
                    }
                }
            },
            None => {
                out.push(hashes[i].clone());
                assert(texts(out@) =~= texts(prior).push(h));
            },
        }
        i += 1;
        assert(db@.objects =~= negotiated(all, next, now));
    }
    assert(texts(hashes@).take(i as int) =~= texts(hashes@));
    out
}

/// The object read last, for a probe of the read path; of several, the first
/// by hash.
pub fn most_recently_accessed(db: &Db) -> (r: Option<String>)
    requires
        db.wf(),
    ensures
        match r {
            None => db@.objects.dom() == Set::<Seq<char>>::empty(),
            Some(h) => db@.objects.dom().contains(h@) && forall|o: Seq<char>| #[trigger]
                db@.objects.dom().contains(o) && o != h@ ==> db@.objects[o].last_accessed_at
                    < db@.objects[h@].last_accessed_at || (db@.objects[o].last_accessed_at
                    == db@.objects[h@].last_accessed_at && text_lt(h@, o)),
        },
{
    let rows = &db.objects.rows;
    if rows.len() == 0 {
        assert(db@.objects.dom() =~= Set::<Seq<char>>::empty());
        return None;
    }
    let mut best: usize = 0;
    let mut i: usize = 1;
    while i < rows.len()
        invariant
            rows@ == db.objects.rows@,
            best < i <= rows@.len(),
            forall|k: int|
                0 <= k < i ==> (#[trigger] rows@[k]).last_accessed_at
                    <= rows@[best as int].last_accessed_at,
            forall|k: int|
                0 <= k < best ==> (#[trigger] rows@[k]).last_accessed_at
                    < rows@[best as int].last_accessed_at,
        decreases rows@.len() - i,
    {
        if rows[i].last_accessed_at > rows[best].last_accessed_at {
            best = i;
        }
        i += 1;
    }
    proof {
        row_under_its_key(rows@, best as int);
        let h = rows@[best as int].object.store_path_hash@;
        assert forall|o: Seq<char>| #[trigger] db@.objects.dom().contains(o) && o != h implies (
        db@.objects[o].last_accessed_at < db@.objects[h].last_accessed_at || (
        db@.objects[o].last_accessed_at == db@.objects[h].last_accessed_at && text_lt(h, o))) by {
            let k = key_index(rows@, o);
            row_under_its_key(rows@, k);
            if k > best {
                assert(text_lt(Row::key_of(rows@[best as int]@), Row::key_of(rows@[k]@)));
            }
        }
    }
    Some(rows[best].object.store_path_hash.clone())
}

/// The bytes of a catalogue are those of the blobs in it, each counted once.
pub proof fn every_blob_counts_once(rows: Seq<Row>, at: int, row: Row)
    requires
        0 <= at <= rows.len(),
    ensures
        sum_sizes(Seq::empty()) == 0,
        sum_sizes(seq![row]) == row.object.file_size,
        sum_sizes(rows.insert(at, row)) == sum_sizes(rows) + row.object.file_size,
{
    sum_sizes_insert(rows, at, row);
    sum_sizes_insert(Seq::empty(), 0, row);
    assert(Seq::<Row>::empty().insert(0, row) =~= seq![row]);
}

/// What is stored is what was handed in, with its references in ascending order,
/// and as far as the clock goes it was created, pushed and read just now.
pub proof fn storing_keeps_what_was_handed_in(obj: ObjectView, now: i64)
    ensures
        ({
            let row = DbView::stored(obj, now);
            &&& row.created_at == now
            &&& row.last_accessed_at == now
            &&& row.pushed_at == now
            &&& row.object.store_path_hash == obj.store_path_hash
            &&& row.object.store_path == obj.store_path
            &&& row.object.name == obj.name
            &&& row.object.nar_hash == obj.nar_hash
            &&& row.object.nar_size == obj.nar_size
            &&& row.object.file_hash == obj.file_hash
            &&& row.object.file_size == obj.file_size
            &&& row.object.deriver == obj.deriver
            &&& row.object.ca == obj.ca
            &&& row.object.sigs == obj.sigs
            &&& row.object.pushed_by == obj.pushed_by
            &&& row.object.references.to_multiset() == obj.references.to_multiset()
            &&& forall|i: int, j: int|
                0 <= i < j < row.object.references.len() ==> text_le(
                    #[trigger] row.object.references[i],
                    #[trigger] row.object.references[j],
                )
        }),
{
    text_leq_total();
    obj.references.lemma_sort_by_ensures(text_leq());
    let refs = DbView::stored(obj, now).object.references;
    assert forall|i: int, j: int| 0 <= i < j < refs.len() implies text_le(
        #[trigger] refs[i],
        #[trigger] refs[j],
    ) by {
        assert(text_leq()(refs[i], refs[j]));
    }
}

/// Deleting an object takes it, its bytes and the pins on it, and nothing else.
pub proof fn deleting_takes_one_object(db: DbView, h: Seq<char>, other: Seq<char>, name: Seq<char>)
    requires
        0 <= db.total_bytes,
        db.objects.dom().contains(h) ==> db.objects[h].object.file_size >= 0,
    ensures
        !without(db, h).objects.dom().contains(h),
        other != h ==> (without(db, h).objects.dom().contains(other)
            <==> db.objects.dom().contains(other)),
        other != h && db.objects.dom().contains(other) ==> without(db, h).objects[other]
            == db.objects[other],
        without(db, h).pins.dom().contains(name) <==> db.pins.dom().contains(name)
            && db.pins[name].store_path_hash != h,
        without(db, h).pins.dom().contains(name) ==> without(db, h).pins[name] == db.pins[name],
        db.objects.dom().contains(h) && db.objects[h].object.file_size <= db.total_bytes
            ==> without(db, h).total_bytes == db.total_bytes - db.objects[h].object.file_size,
        db.objects.dom().contains(h) && db.objects[h].object.file_size > db.total_bytes
            ==> without(db, h).total_bytes == 0,
        !db.objects.dom().contains(h) ==> without(db, h).total_bytes == db.total_bytes,
{
}

/// Deleting several objects takes them and the pins on them, and nothing else.
pub proof fn deleting_several_takes_only_them(
    db: DbView,
    gone: Set<Seq<char>>,
    h: Seq<char>,
    name: Seq<char>,
)
    ensures
        objects_less(db.objects, gone).dom().contains(h) <==> db.objects.dom().contains(h)
            && !gone.contains(h),
        objects_less(db.objects, gone).dom().contains(h) ==> objects_less(db.objects, gone)[h]
            == db.objects[h],
        pins_less(db.pins, gone).dom().contains(name) <==> db.pins.dom().contains(name)
            && !gone.contains(db.pins[name].store_path_hash),
        pins_less(db.pins, gone).dom().contains(name) ==> pins_less(db.pins, gone)[name]
            == db.pins[name],
{
}

/// A pin without an end protects for good; one with an end protects at every
/// moment before it and at none from it on.
pub proof fn pins_protect_until_they_end(db: DbView, name: Seq<char>, h: Seq<char>, now: i64)
    requires
        db.pins.dom().contains(name),
        db.pins[name].store_path_hash == h,
    ensures
        db.pins[name].expires_at is None ==> db.pinned(h, now),
        db.pins[name].expires_at is Some && now < db.pins[name].expires_at->0 ==> db.pinned(h, now),
        (forall|n: Seq<char>| #[trigger]
            db.pins.dom().contains(n) && db.pins[n].store_path_hash == h ==> n == name)
            && db.pins[name].expires_at is Some && now >= db.pins[name].expires_at->0
            ==> !db.pinned(h, now),
{
}

/// The hash of `<hash>-<name>` is the 32 characters in front, be it the basename
/// of a store path or a reference.
pub proof fn hashes_stand_in_front(hash: Seq<char>, rest: Seq<char>)
    requires
        hash.len() == 32,
        is_ascii_chars(hash),
        is_ascii_chars(rest),
    ensures
        hash_prefix(hash + rest) == hash,
        reference_hash(hash + rest) == hash,
{
    let s = hash + rest;
    assert(is_ascii_chars(s));
    is_ascii_chars_encode_utf8(s);
    is_ascii_chars_encode_utf8(hash);
    encode_utf8_valid_utf8(s);
    let bytes = encode_utf8(s);
    if rest.len() == 0 {
        is_char_boundary_start_end_of_seq(bytes);
    } else {
        assert(bytes[32] == s[32] as u8);
        assert(s[32] <= '\u{7f}');
        is_char_boundary_iff_not_is_continuation_byte(bytes, 32);
    }
    assert(bytes.subrange(0, 32) =~= encode_utf8(hash)) by {
        assert forall|i: int| 0 <= i < 32 implies bytes[i] == encode_utf8(hash)[i] by {
            assert(s[i] == hash[i]);
        }
    }
    encode_utf8_decode_utf8(hash);
    assert(s.take(32) =~= hash);
}

/// What a check is told of a row is the row's own hash, name, time of upload and
/// size of the blob.
pub proof fn briefs_tell_of_their_row(b: Brief, v: RowView)
    ensures
        brief_of(b, v) <==> b.hash@ == v.object.store_path_hash && b.name@ == v.object.name
            && b.created_at == v.created_at && b.file_size == v.object.file_size,
{
}

/// The counter counts if it is what the blobs take, and taking off more than it
/// holds leaves nothing.
pub proof fn counters_count_the_blobs(db: Db, a: int, b: int)
    ensures
        db.counted() <==> db.total_bytes == sum_sizes(db.objects.rows@),
        b <= a ==> debited(a, b) == a - b,
        b > a ==> debited(a, b) == 0,
{
}

/// A row is seen with the fields that it has, under the hash of its object.
pub proof fn rows_are_seen_as_they_are(row: Row, pin: PinRow, i: int)
    ensures
        row@.object.store_path_hash == row.object.store_path_hash@,
        row@.object.store_path == row.object.store_path@,
        row@.object.name == row.object.name@,
        row@.object.nar_hash == row.object.nar_hash@,
        row@.object.nar_size == row.object.nar_size,
        row@.object.file_hash == row.object.file_hash@,
        row@.object.file_size == row.object.file_size,
        row.object.deriver is None ==> row@.object.deriver is None,
        row.object.deriver is Some ==> row@.object.deriver == Some(row.object.deriver->0@),
        row.object.ca is None ==> row@.object.ca is None,
        row.object.ca is Some ==> row@.object.ca == Some(row.object.ca->0@),
        row.object.pushed_by is None ==> row@.object.pushed_by is None,
        row.object.pushed_by is Some ==> row@.object.pushed_by == Some(row.object.pushed_by->0@),
        row@.object.references.len() == row.object.references@.len(),
        0 <= i < row.object.references@.len() ==> row@.object.references[i]
            == row.object.references@[i]@,
        row@.object.sigs.len() == row.object.sigs@.len(),
        0 <= i < row.object.sigs@.len() ==> row@.object.sigs[i] == row.object.sigs@[i]@,
        row@.created_at == row.created_at,
        row@.last_accessed_at == row.last_accessed_at,
        row@.pushed_at == row.pushed_at,
        <Row as Keyed>::key_of(row@) == row.object.store_path_hash@,
        pin@.name == pin.name@,
        pin@.store_path_hash == pin.store_path_hash@,
        pin@.expires_at == pin.expires_at,
        pin@.created_at == pin.created_at,
        <PinRow as Keyed>::key_of(pin@) == pin.name@,
{
}

} // verus!
