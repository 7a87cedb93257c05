//! Listing of recorded sessions: the `.csv` files of a directory, newest first.
use vstd::prelude::*;

verus! {

/// What a listing reads of one child of the directory.
pub struct DirectoryEntry {
    /// The file name, or `None` where it cannot be decoded as text.
    pub name: Option<String>,
    /// Whether the entry is a regular file.
    pub is_file: bool,
    /// Creation time in nanoseconds relative to the Unix epoch, where the
    /// filesystem reports one.
    pub created: Option<i128>,
}

/// Index of the last `'.'` in `name`, or -1 where there is none.
pub open spec fn last_dot(name: Seq<char>) -> int
    decreases name.len(),
{
    if name.len() == 0 {
        -1
    } else if name.last() == '.' {
        name.len() - 1
    } else {
        last_dot(name.drop_last())
    }
}

/// Whether `name` splits into a stem and an extension: it has a dot after
/// its first character, and it is not `..`.
pub open spec fn has_extension_dot(name: Seq<char>) -> bool {
    name != seq!['.', '.'] && last_dot(name) > 0
}

/// The name without its extension.
pub open spec fn stem_of(name: Seq<char>) -> Seq<char> {
    if has_extension_dot(name) {
        name.take(last_dot(name))
    } else {
        name
    }
}

/// The part of the name after its last dot, where it has an extension.
pub open spec fn extension_of(name: Seq<char>) -> Option<Seq<char>> {
    if has_extension_dot(name) {
        Some(name.skip(last_dot(name) + 1))
    } else {
        None
    }
}

/// The extension of a session file.
pub open spec fn session_extension() -> Seq<char> {
    seq!['c', 's', 'v']
}

/// A session file is a regular file with a readable name whose extension is
/// exactly `csv`.
pub open spec fn is_session(e: DirectoryEntry) -> bool {
    &&& e.is_file
    &&& e.name is Some
    &&& extension_of(e.name->0@) == Some(session_extension())
}

proof fn lemma_last_dot_bounds(name: Seq<char>)
    ensures
        -1 <= last_dot(name) < name.len(),
        last_dot(name) >= 0 ==> name[last_dot(name)] == '.',
        forall|j: int| last_dot(name) < j < name.len() ==> name[j] != '.',
    decreases name.len(),
{
    if name.len() > 0 && name.last() != '.' {
        lemma_last_dot_bounds(name.drop_last());
        assert forall|j: int| last_dot(name) < j < name.len() implies name[j] != '.' by {
            if j < name.len() - 1 {
                assert(name[j] == name.drop_last()[j]);
            }
        }
    }
}

proof fn lemma_last_dot_is(name: Seq<char>, k: int)
    requires
        -1 <= k < name.len(),
        k >= 0 ==> name[k] == '.',
        forall|j: int| k < j < name.len() ==> name[j] != '.',
    ensures
        last_dot(name) == k,
    decreases name.len(),
{
    if name.len() > 0 && k < name.len() - 1 {
        lemma_last_dot_is(name.drop_last(), k);
    }
}

/// Finds the last dot of `name`.
fn find_last_dot(name: &str) -> (r: Option<usize>)
    ensures
        match r {
            Some(k) => last_dot(name@) == k as int,
            None => last_dot(name@) == -1,
        },
{
    let n = name.unicode_len();
    let mut i: usize = n;
    while i > 0
        invariant
            i <= n == name@.len(),
            forall|j: int| i <= j < n ==> name@[j] != '.',
        decreases i,
    {
        if name.get_char(i - 1) == '.' {
            proof {
                lemma_last_dot_is(name@, i - 1);
            }
            return Some(i - 1);
        }
        i = i - 1;
    }
    proof {
        lemma_last_dot_is(name@, -1);
    }
    None
}

/// Whether `name` is the two-character name `..`.
fn is_parent_name(name: &str) -> (r: bool)
    ensures
        r == (name@ == seq!['.', '.']),
{
    if name.unicode_len() != 2 {
        return false;
    }
    let r = name.get_char(0) == '.' && name.get_char(1) == '.';
    proof {
        if r {
            assert(name@ =~= seq!['.', '.']);
        }
    }
    r
}

/// The position of the dot that separates stem and extension, if any.
fn extension_dot(name: &str) -> (r: Option<usize>)
    ensures
        match r {
            Some(k) => has_extension_dot(name@) && k as int == last_dot(name@),
            None => !has_extension_dot(name@),
        },
{
    if is_parent_name(name) {
        return None;
    }
    match find_last_dot(name) {
        Some(k) => if k > 0 {
            Some(k)
        } else {
            None
        },
        None => None,
    }
}

/// The file name without its extension: everything before the last dot,
/// unless that dot starts the name or the name is `..`.
pub fn file_stem(name: &str) -> (r: String)
    ensures
        r@ == stem_of(name@),
{
    proof {
        lemma_last_dot_bounds(name@);
    }
    match extension_dot(name) {
        Some(k) => String::from_str(name.substring_char(0, k)),
        None => String::from_str(name),
    }
}

/// Whether the extension of `name` is exactly `csv`, letter case included.
pub fn has_session_extension(name: &str) -> (r: bool)
    ensures
        r == (extension_of(name@) == Some(session_extension())),
{
    proof {
        lemma_last_dot_bounds(name@);
    }
    match extension_dot(name) {
        Some(k) => {
            let n = name.unicode_len();
            let r = n - k == 4 && name.get_char(k + 1) == 'c' && name.get_char(k + 2) == 's'
                && name.get_char(k + 3) == 'v';
            proof {
                let ext = name@.skip(k + 1);
                if r {
                    assert(ext =~= session_extension());
                } else if ext.len() == 3 {
                    assert(ext[0] == name@[k + 1]);
                    assert(ext[1] == name@[k + 2]);
                    assert(ext[2] == name@[k + 3]);
                }
            }
            r
        },
        None => false,
    }
}

/// Whether the entry is a session file.
pub fn is_session_file(e: &DirectoryEntry) -> (r: bool)
    ensures
        r == is_session(*e),
{
    if !e.is_file {
        return false;
    }
    match &e.name {
        Some(name) => has_session_extension(name.as_str()),
        None => false,
    }
}

/// The time an entry is ordered by: its creation time, or `now` where the
/// filesystem reports none, so that such an entry counts as just created.
pub open spec fn sort_key(e: DirectoryEntry, now: int) -> int {
    match e.created {
        Some(t) => t as int,
        None => now,
    }
}

/// Entry `a` is listed before entry `b`: it was created later, or at the same
/// time and comes later in the directory's enumeration.
pub open spec fn listed_before(entries: Seq<DirectoryEntry>, now: int, a: int, b: int) -> bool {
    ||| sort_key(entries[a], now) > sort_key(entries[b], now)
    ||| (sort_key(entries[a], now) == sort_key(entries[b], now) && a > b)
}

/// `order` holds, newest first, the index of each session file among the
/// first `k` entries, once.
pub open spec fn is_prefix_order(
    entries: Seq<DirectoryEntry>,
    now: int,
    order: Seq<int>,
    k: int,
) -> bool {
    &&& forall|i: int| 0 <= i < order.len() ==> 0 <= #[trigger] order[i] < k
    &&& forall|i: int| 0 <= i < order.len() ==> is_session(entries[#[trigger] order[i]])
    &&& forall|m: int| 0 <= m < k && is_session(entries[m]) ==> #[trigger] order.contains(m)
    &&& forall|i: int, j: int|
        0 <= i < j < order.len() ==> listed_before(entries, now, #[trigger] order[i], #[trigger] order[j])
}

/// `order` holds, newest first, the index of each session file of the
/// directory, once.
pub open spec fn is_newest_first_order(entries: Seq<DirectoryEntry>, now: int, order: Seq<int>) -> bool {
    is_prefix_order(entries, now, order, entries.len() as int)
}

/// The indices of the session files, newest first.
pub open spec fn newest_first_order(entries: Seq<DirectoryEntry>, now: int) -> Seq<int> {
    choose|order: Seq<int>| is_newest_first_order(entries, now, order)
}

/// The stems of the session files, newest first.
pub open spec fn session_listing(entries: Seq<DirectoryEntry>, now: int) -> Seq<Seq<char>> {
    newest_first_order(entries, now).map_values(|k: int| stem_of(entries[k].name->0@))
}

/// Number of leading items of `order` that are strictly newer than `key`.
spec fn newer_prefix_len(entries: Seq<DirectoryEntry>, now: int, order: Seq<int>, key: int) -> int
    decreases order.len(),
{
    if order.len() > 0 && sort_key(entries[order[0]], now) > key {
        1 + newer_prefix_len(entries, now, order.drop_first(), key)
    } else {
        0
    }
}

proof fn lemma_newer_prefix_len(entries: Seq<DirectoryEntry>, now: int, order: Seq<int>, key: int)
    requires
        forall|i: int, j: int|
            0 <= i < j < order.len() ==> listed_before(entries, now, #[trigger] order[i], #[trigger] order[j]),
    ensures
        0 <= newer_prefix_len(entries, now, order, key) <= order.len(),
        forall|i: int|
            0 <= i < newer_prefix_len(entries, now, order, key) ==> sort_key(
                entries[#[trigger] order[i]],
                now,
            ) > key,
        newer_prefix_len(entries, now, order, key) < order.len() ==> sort_key(
            entries[order[newer_prefix_len(entries, now, order, key)]],
            now,
        ) <= key,
    decreases order.len(),
{
    if order.len() > 0 && sort_key(entries[order[0]], now) > key {
        let rest = order.drop_first();
        assert forall|i: int, j: int| 0 <= i < j < rest.len() implies listed_before(
            entries,
            now,
            #[trigger] rest[i],
            #[trigger] rest[j],
        ) by {
            assert(rest[i] == order[i + 1] && rest[j] == order[j + 1]);
        }
        lemma_newer_prefix_len(entries, now, rest, key);
        let p = newer_prefix_len(entries, now, order, key);
        assert forall|i: int| 0 <= i < p implies sort_key(entries[#[trigger] order[i]], now) > key by {
            if i > 0 {
                assert(order[i] == rest[i - 1]);
            }
        }
        if p < order.len() {
            assert(order[p] == rest[p - 1]);
        }
    }
}

/// Putting session file `k` at position `p` of an order of the first `k`
/// entries, after exactly the strictly newer ones, gives an order of the
/// first `k + 1`.
proof fn lemma_insert_step(entries: Seq<DirectoryEntry>, now: int, order: Seq<int>, k: int, p: int)
    requires
        0 <= k < entries.len(),
        is_session(entries[k]),
        is_prefix_order(entries, now, order, k),
        0 <= p <= order.len(),
        forall|i: int| 0 <= i < p ==> sort_key(entries[#[trigger] order[i]], now) > sort_key(entries[k], now),
        p < order.len() ==> sort_key(entries[order[p]], now) <= sort_key(entries[k], now),
    ensures
        is_prefix_order(entries, now, order.insert(p, k), k + 1),
{
    let next = order.insert(p, k);
    assert forall|i: int| 0 <= i < next.len() implies 0 <= #[trigger] next[i] < k + 1 && is_session(
        entries[next[i]],
    ) by {
        if i > p {
            assert(next[i] == order[i - 1]);
        }
    }
    assert forall|m: int| 0 <= m < k + 1 && is_session(entries[m]) implies #[trigger] next.contains(m) by {
        if m == k {
            assert(next[p] == k);
        } else {
            assert(order.contains(m));
            let i = choose|i: int| 0 <= i < order.len() && order[i] == m;
            if i < p {
                assert(next[i] == m);
            } else {
                assert(next[i + 1] == m);
            }
        }
    }
    assert forall|i: int, j: int| 0 <= i < j < next.len() implies listed_before(
        entries,
        now,
        #[trigger] next[i],
        #[trigger] next[j],
    ) by {
        if j < p {
            assert(next[i] == order[i] && next[j] == order[j]);
        } else if j == p {
            assert(next[i] == order[i]);
        } else if i == p {
            assert(next[j] == order[j - 1]);
            assert(order[j - 1] < k);
            if j - 1 > p {
                assert(listed_before(entries, now, order[p], order[j - 1]));
            }
        } else if i < p {
            assert(next[i] == order[i] && next[j] == order[j - 1]);
        } else {
            assert(next[i] == order[i - 1] && next[j] == order[j - 1]);
        }
    }
}

/// An order of the first `k` entries is one of the first `k + 1` where entry
/// `k` is no session file.
proof fn lemma_skip_step(entries: Seq<DirectoryEntry>, now: int, order: Seq<int>, k: int)
    requires
        0 <= k < entries.len(),
        !is_session(entries[k]),
        is_prefix_order(entries, now, order, k),
    ensures
        is_prefix_order(entries, now, order, k + 1),
{
    assert forall|m: int| 0 <= m < k + 1 && is_session(entries[m]) implies #[trigger] order.contains(m) by {
        assert(m != k);
    }
}

proof fn lemma_prefix_order_exists(entries: Seq<DirectoryEntry>, now: int, k: int) -> (order: Seq<int>)
    requires
        0 <= k <= entries.len(),
    ensures
        is_prefix_order(entries, now, order, k),
    decreases k,
{
    if k == 0 {
        Seq::empty()
    } else {
        let order = lemma_prefix_order_exists(entries, now, k - 1);
        if is_session(entries[k - 1]) {
            let key = sort_key(entries[k - 1], now);
            lemma_newer_prefix_len(entries, now, order, key);
            let p = newer_prefix_len(entries, now, order, key);
            lemma_insert_step(entries, now, order, k - 1, p);
            order.insert(p, k - 1)
        } else {
            lemma_skip_step(entries, now, order, k - 1);
            order
        }
    }
}

/// Every directory has a newest-first order of its session files, and
/// `newest_first_order` is one.
pub proof fn lemma_newest_first_order_exists(entries: Seq<DirectoryEntry>, now: int)
    ensures
        is_newest_first_order(entries, now, newest_first_order(entries, now)),
{
    let order = lemma_prefix_order_exists(entries, now, entries.len() as int);
    assert(is_newest_first_order(entries, now, order));
}

/// Two sequences, each strictly ordered by `listed_before`, that hold the same
/// items are equal.
proof fn lemma_same_items_same_order(
    entries: Seq<DirectoryEntry>,
    now: int,
    a: Seq<int>,
    b: Seq<int>,
)
    requires
        forall|i: int, j: int| 0 <= i < j < a.len() ==> listed_before(entries, now, #[trigger] a[i], #[trigger] a[j]),
        forall|i: int, j: int| 0 <= i < j < b.len() ==> listed_before(entries, now, #[trigger] b[i], #[trigger] b[j]),
        forall|x: int| a.contains(x) <==> b.contains(x),
    ensures
        a == b,
    decreases a.len(),
{
    if a.len() == 0 {
        if b.len() > 0 {
            assert(b.contains(b[0]));
        }
        assert(a =~= b);
    } else {
        assert(a.contains(a[0]));
        assert(b.contains(b[0]));
        let j = choose|j: int| 0 <= j < b.len() && b[j] == a[0];
        let i = choose|i: int| 0 <= i < a.len() && a[i] == b[0];
        if j > 0 {
            assert(listed_before(entries, now, b[0], b[j]));
            if i > 0 {
                assert(listed_before(entries, now, a[0], a[i]));
            }
        }
        assert(a[0] == b[0]);
        let ra = a.drop_first();
        let rb = b.drop_first();
        assert forall|i: int, j: int| 0 <= i < j < ra.len() implies listed_before(
            entries,
            now,
            #[trigger] ra[i],
            #[trigger] ra[j],
        ) by {
            assert(ra[i] == a[i + 1] && ra[j] == a[j + 1]);
        }
        assert forall|i: int, j: int| 0 <= i < j < rb.len() implies listed_before(
            entries,
            now,
            #[trigger] rb[i],
            #[trigger] rb[j],
        ) by {
            assert(rb[i] == b[i + 1] && rb[j] == b[j + 1]);
        }
        assert forall|x: int| ra.contains(x) implies rb.contains(x) by {
            let i = choose|i: int| 0 <= i < ra.len() && ra[i] == x;
            assert(a[i + 1] == x);
            assert(listed_before(entries, now, a[0], a[i + 1]));
            assert(b.contains(x));
            let j = choose|j: int| 0 <= j < b.len() && b[j] == x;
            assert(j != 0);
            assert(rb[j - 1] == x);
        }
        assert forall|x: int| rb.contains(x) implies ra.contains(x) by {
            let j = choose|j: int| 0 <= j < rb.len() && rb[j] == x;
            assert(b[j + 1] == x);
            assert(listed_before(entries, now, b[0], b[j + 1]));
            assert(a.contains(x));
            let i = choose|i: int| 0 <= i < a.len() && a[i] == x;
            assert(i != 0);
            assert(ra[i - 1] == x);
        }
        lemma_same_items_same_order(entries, now, ra, rb);
        assert forall|i: int| 0 <= i < a.len() implies a[i] == b[i] by {
            if i > 0 {
                assert(a[i] == ra[i - 1] && b[i] == rb[i - 1]);
            }
        }
        assert(a =~= b);
    }
}

/// The newest-first order of the session files is unique: any order that
/// lists each session file once, newest first, is `newest_first_order`.
pub proof fn lemma_newest_first_order_unique(entries: Seq<DirectoryEntry>, now: int, order: Seq<int>)
    requires
        is_newest_first_order(entries, now, order),
    ensures
        order == newest_first_order(entries, now),
{
    let chosen = newest_first_order(entries, now);
    lemma_newest_first_order_exists(entries, now);
    assert forall|x: int| order.contains(x) <==> chosen.contains(x) by {
        if order.contains(x) {
            let i = choose|i: int| 0 <= i < order.len() && order[i] == x;
            assert(0 <= order[i] < entries.len() && is_session(entries[order[i]]));
        }
        if chosen.contains(x) {
            let i = choose|i: int| 0 <= i < chosen.len() && chosen[i] == x;
            assert(0 <= chosen[i] < entries.len() && is_session(entries[chosen[i]]));
        }
    }
    lemma_same_items_same_order(entries, now, order, chosen);
}

/// The positions of `v` as mathematical integers.
pub open spec fn as_ints(v: Seq<usize>) -> Seq<int> {
    v.map_values(|x: usize| x as int)
}

/// The time that entry `e` is ordered by.
fn sort_key_of(e: &DirectoryEntry, now: i128) -> (r: i128)
    ensures
        r as int == sort_key(*e, now as int),
{
    match e.created {
        Some(t) => t,
        None => now,
    }
}

/// The session files of a directory, newest first, by stem.
///
/// `entries` is what was read of the directory's children, in the order in
/// which the directory listed them; `now` stands for the creation time of an
/// entry whose creation time is unknown. A session file is a regular file
/// whose name decodes as text and whose extension is exactly `csv`. Entries
/// created at the same time keep the reverse of their listing order.
pub fn list_sessions(entries: &Vec<DirectoryEntry>, now: i128) -> (r: Vec<String>)
    ensures
        r@.map_values(|s: String| s@) == session_listing(entries@, now as int),
{
    let ghost es = entries@;
    let ghost t = now as int;
    let mut order: Vec<usize> = Vec::new();
    let mut k: usize = 0;
    while k < entries.len()
        invariant
            es == entries@,
            t == now as int,
            k <= entries.len(),
            is_prefix_order(es, t, as_ints(order@), k as int),
        decreases entries.len() - k,
    {
        if is_session_file(&entries[k]) {
            let key = sort_key_of(&entries[k], now);
            proof {
                assert forall|i: int| 0 <= i < order@.len() implies #[trigger] order@[i] < k by {
                    assert(as_ints(order@)[i] == order@[i] as int);
                }
            }
            let mut p: usize = 0;
            while p < order.len() && sort_key_of(&entries[order[p]], now) > key
                invariant
                    es == entries@,
                    t == now as int,
                    k < entries.len(),
                    key as int == sort_key(es[k as int], t),
                    p <= order.len(),
                    forall|i: int| 0 <= i < order@.len() ==> #[trigger] order@[i] < k,
                    is_prefix_order(es, t, as_ints(order@), k as int),
                    forall|i: int| 0 <= i < p ==> sort_key(es[(#[trigger] order@[i]) as int], t) > key,
                decreases order.len() - p,
            {
                proof {
                    assert(as_ints(order@)[p as int] == order@[p as int] as int);
                }
                p = p + 1;
            }
            let ghost before = as_ints(order@);
            proof {
                assert forall|i: int| 0 <= i < p implies sort_key(es[#[trigger] before[i]], t) > key by {
                    assert(before[i] == order@[i] as int);
                }
                if p < order.len() {
                    assert(before[p as int] == order@[p as int] as int);
                }
                lemma_insert_step(es, t, before, k as int, p as int);
            }
            order.insert(p, k);
            proof {
                assert(as_ints(order@) =~= before.insert(p as int, k as int));
            }
        } else {
            proof {
                lemma_skip_step(es, t, as_ints(order@), k as int);
            }
        }
        k = k + 1;
    }
    proof {
        lemma_newest_first_order_unique(es, t, as_ints(order@));
    }
    let ghost chosen = as_ints(order@);
    let mut r: Vec<String> = Vec::new();
    let mut i: usize = 0;
    while i < order.len()
        invariant
            es == entries@,
            chosen == as_ints(order@),
            is_newest_first_order(es, now as int, chosen),
            i <= order.len(),
            r@.len() == i,
            forall|j: int|
                0 <= j < i ==> (#[trigger] r@[j])@ == stem_of(es[chosen[j]].name->0@),
        decreases order.len() - i,
    {
        let idx = order[i];
        proof {
            assert(chosen[i as int] == idx as int);
        }
        if let Some(name) = &entries[idx].name {
            r.push(file_stem(name.as_str()));
        }
        i = i + 1;
    }
    assert(r@.map_values(|s: String| s@) =~= session_listing(es, now as int));
    r
}

/// A directory that holds no session file, only files of other kinds and
/// subdirectories, lists no session.
pub proof fn lemma_no_session_files_list_empty(entries: Seq<DirectoryEntry>, now: int)
    requires
        forall|k: int| 0 <= k < entries.len() ==> !is_session(#[trigger] entries[k]),
    ensures
        session_listing(entries, now).len() == 0,
{
    lemma_newest_first_order_exists(entries, now);
    let order = newest_first_order(entries, now);
    if order.len() > 0 {
        assert(is_session(entries[order[0]]));
    }
}

/// Where every session file has a known creation time and no two share one,
/// the listing holds the stem of each session file once, from the most
/// recently created to the least.
pub proof fn lemma_distinct_times_newest_first(entries: Seq<DirectoryEntry>, now: int)
    requires
        forall|k: int| 0 <= k < entries.len() && is_session(#[trigger] entries[k]) ==> entries[k].created is Some,
        forall|k: int, m: int|
            0 <= k < m < entries.len() && is_session(#[trigger] entries[k]) && is_session(#[trigger] entries[m])
                ==> entries[k].created != entries[m].created,
    ensures
        ({
            let order = newest_first_order(entries, now);
            let listing = session_listing(entries, now);
            &&& listing.len() == order.len()
            &&& forall|i: int| 0 <= i < order.len() ==> listing[i] == stem_of(entries[#[trigger] order[i]].name->0@)
            &&& forall|k: int| 0 <= k < entries.len() && is_session(entries[k]) ==> #[trigger] order.contains(k)
            &&& forall|i: int, j: int|
                0 <= i < j < order.len() ==> entries[#[trigger] order[i]].created->0 > entries[#[trigger] order[j]].created->0
        }),
{
    lemma_newest_first_order_exists(entries, now);
    let order = newest_first_order(entries, now);
    assert forall|i: int, j: int| 0 <= i < j < order.len() implies entries[#[trigger] order[i]].created->0
        > entries[#[trigger] order[j]].created->0 by {
        let (a, b) = (order[i], order[j]);
        assert(listed_before(entries, now, a, b));
        assert(is_session(entries[a]) && is_session(entries[b]));
        assert(a != b);
        if a < b {
            assert(entries[a].created != entries[b].created);
        } else {
            assert(entries[b].created != entries[a].created);
        }
    }
}

/// Where every session file has a known creation time, the listing does not
/// depend on when it is taken: listing an unchanged directory twice gives the
/// same result.
pub proof fn lemma_listing_repeatable(entries: Seq<DirectoryEntry>, now1: int, now2: int)
    requires
        forall|k: int| 0 <= k < entries.len() && is_session(#[trigger] entries[k]) ==> entries[k].created is Some,
    ensures
        session_listing(entries, now1) == session_listing(entries, now2),
{
    lemma_newest_first_order_exists(entries, now1);
    let order = newest_first_order(entries, now1);
    assert forall|i: int, j: int| 0 <= i < j < order.len() implies listed_before(
        entries,
        now2,
        #[trigger] order[i],
        #[trigger] order[j],
    ) by {
        assert(listed_before(entries, now1, order[i], order[j]));
        assert(is_session(entries[order[i]]) && is_session(entries[order[j]]));
    }
    lemma_newest_first_order_unique(entries, now2, order);
}

/// A file without an extension is no session file, whatever else holds of it.
pub proof fn lemma_no_extension_no_session(e: DirectoryEntry)
    requires
        e.name is Some,
        extension_of(e.name->0@) is None,
    ensures
        !is_session(e),
{
}

/// A name without a dot has no extension.
pub proof fn lemma_dotless_name_no_extension(name: Seq<char>)
    requires
        forall|j: int| 0 <= j < name.len() ==> name[j] != '.',
    ensures
        extension_of(name) is None,
        stem_of(name) == name,
{
    lemma_last_dot_is(name, -1);
}

} // verus!
