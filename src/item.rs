//! Items, the edits that can be made to one, and the in-memory index of a
//! project with its tree queries.
use vstd::prelude::*;
use vstd::string::StringSliceAdditionalSpecFns;
use vstd::utf8::*;
use crate::error::AuError;

verus! {

/// The content type given to an item that names none.
pub const CONTENT_TYPE_DEFAULT: &'static str = "text/plain";

/// One node of the tree.
#[derive(Clone, Debug)]
pub struct Item {
    /// Unique, non-empty key of the item.
    pub id: String,
    /// Time of creation or last change, in milliseconds since the Unix epoch.
    pub at: i64,
    /// Optional tag with no meaning to the store.
    pub class: Option<String>,
    /// How the content is to be read; `text/...` selects text storage.
    pub content_type: String,
    /// The raw content, UTF-8 text where the content type is textual.
    pub content: Vec<u8>,
    /// Order among siblings: higher comes first.
    pub rank: i64,
    /// The id of the item this one is nested under.
    pub parent: Option<String>,
}

/// One edit to an item.
#[derive(Clone, Debug)]
pub enum ItemUpdate {
    /// Nest the item under another (`Some`), or move it to the root (`None`).
    Parent(Option<String>),
    /// Set the rank.
    Rank(i64),
    /// Set or clear the class.
    Class(Option<String>),
    /// Set the content type and the content.
    Content(String, Vec<u8>),
}

/// An edit as plain values.
pub enum UpdateView {
    Parent(Option<Seq<char>>),
    Rank(i64),
    Class(Option<Seq<char>>),
    Content(Seq<char>, Seq<u8>),
}

impl View for ItemUpdate {
    type V = UpdateView;

    open spec fn view(&self) -> UpdateView {
        match self {
            ItemUpdate::Parent(p) => UpdateView::Parent(opt_view(*p)),
            ItemUpdate::Rank(r) => UpdateView::Rank(*r),
            ItemUpdate::Class(c) => UpdateView::Class(opt_view(*c)),
            ItemUpdate::Content(ct, c) => UpdateView::Content(ct@, c@),
        }
    }
}

/// An item as plain values.
pub struct ItemView {
    pub id: Seq<char>,
    pub at: i64,
    pub class: Option<Seq<char>>,
    pub content_type: Seq<char>,
    pub content: Seq<u8>,
    pub rank: i64,
    pub parent: Option<Seq<char>>,
}

/// The characters of an optional string.
pub open spec fn opt_view(o: Option<String>) -> Option<Seq<char>> {
    match o {
        Some(s) => Some(s@),
        None => None,
    }
}

impl View for Item {
    type V = ItemView;

    open spec fn view(&self) -> ItemView {
        ItemView {
            id: self.id@,
            at: self.at,
            class: opt_view(self.class),
            content_type: self.content_type@,
            content: self.content@,
            rank: self.rank,
            parent: opt_view(self.parent),
        }
    }
}

/// The bytes of `text/`.
pub open spec fn text_prefix_bytes() -> Seq<u8> {
    seq![116u8, 101u8, 120u8, 116u8, 47u8]
}

/// Whether a content type selects collaborative-text storage: its UTF-8 form
/// begins with `text/`.
pub open spec fn is_text_type(ct: Seq<char>) -> bool {
    encode_utf8(ct).len() >= 5 && encode_utf8(ct).subrange(0, 5) == text_prefix_bytes()
}

/// Whether `a` and `b` hold the same bytes.
pub fn same_bytes(a: &[u8], b: &[u8]) -> (r: bool)
    ensures
        r == (a@ == b@),
{
    if a.len() != b.len() {
        return false;
    }
    let mut i: usize = 0;
    while i < a.len()
        invariant
            a@.len() == b@.len(),
            i <= a@.len(),
            a@.subrange(0, i as int) == b@.subrange(0, i as int),
        decreases a@.len() - i,
    {
        if a[i] != b[i] {
            return false;
        }
        assert(a@.subrange(0, i + 1) =~= a@.subrange(0, i as int).push(a@[i as int]));
        assert(b@.subrange(0, i + 1) =~= b@.subrange(0, i as int).push(b@[i as int]));
        i += 1;
    }
    assert(a@ =~= a@.subrange(0, i as int));
    assert(b@ =~= b@.subrange(0, i as int));
    true
}

/// Whether `a` and `b` hold the same characters.
pub fn same_text(a: &str, b: &str) -> (r: bool)
    ensures
        r == (a@ == b@),
{
    broadcast use encode_utf8_decode_utf8;

    let x = a.as_bytes();
    let y = b.as_bytes();
    if x.len() != y.len() {
        proof {
            if a@ == b@ {
                assert(a.spec_bytes() == b.spec_bytes());
            }
        }
        return false;
    }
    let mut i: usize = 0;
    while i < x.len()
        invariant
            x@ == a.spec_bytes(),
            y@ == b.spec_bytes(),
            x@.len() == y@.len(),
            i <= x@.len(),
            x@.subrange(0, i as int) == y@.subrange(0, i as int),
        decreases x@.len() - i,
    {
        if x[i] != y[i] {
            proof {
                if a@ == b@ {
                    assert(a.spec_bytes() == b.spec_bytes());
                }
            }
            return false;
        }
        assert(x@.subrange(0, i + 1) =~= x@.subrange(0, i as int).push(x@[i as int]));
        assert(y@.subrange(0, i + 1) =~= y@.subrange(0, i as int).push(y@[i as int]));
        i += 1;
    }
    proof {
        assert(x@ =~= x@.subrange(0, i as int));
        assert(y@ =~= y@.subrange(0, i as int));
        assert(decode_utf8(encode_utf8(a@)) == a@);
        assert(decode_utf8(encode_utf8(b@)) == b@);
    }
    true
}

/// Whether the content type `ct` selects collaborative-text storage.
pub fn is_text_content_type(ct: &str) -> (r: bool)
    ensures
        r == is_text_type(ct@),
{
    let b = ct.as_bytes();
    if b.len() < 5 {
        return false;
    }
    let r = b[0] == 116u8 && b[1] == 101u8 && b[2] == 120u8 && b[3] == 116u8 && b[4] == 47u8;
    proof {
        if r {
            assert(b@.subrange(0, 5) =~= text_prefix_bytes());
        } else if b@.subrange(0, 5) == text_prefix_bytes() {
            assert(b@.subrange(0, 5)[0] == 116u8);
            assert(b@.subrange(0, 5)[1] == 101u8);
            assert(b@.subrange(0, 5)[2] == 120u8);
            assert(b@.subrange(0, 5)[3] == 116u8);
            assert(b@.subrange(0, 5)[4] == 47u8);
        }
    }
    r
}

/// The plain values of a run of items.
pub open spec fn views(s: Seq<Item>) -> Seq<ItemView> {
    s.map_values(|it: Item| it@)
}

/// No two items of `s` share an id.
pub open spec fn unique_ids(s: Seq<ItemView>) -> bool {
    forall|i: int, j: int| 0 <= i < s.len() && 0 <= j < s.len() && i != j ==> s[i].id != s[j].id
}

/// The items of `s` keyed by id.
pub open spec fn map_of(s: Seq<ItemView>) -> Map<Seq<char>, ItemView>
    decreases s.len(),
{
    if s.len() == 0 {
        Map::empty()
    } else {
        map_of(s.drop_last()).insert(s.last().id, s.last())
    }
}

proof fn lemma_map_of_contains(s: Seq<ItemView>, k: Seq<char>)
    ensures
        map_of(s).contains_key(k) <==> exists|i: int| 0 <= i < s.len() && s[i].id == k,
    decreases s.len(),
{
    if s.len() > 0 {
        lemma_map_of_contains(s.drop_last(), k);
        if map_of(s).contains_key(k) && k != s.last().id {
            let i = choose|i: int| 0 <= i < s.drop_last().len() && s.drop_last()[i].id == k;
            assert(s[i].id == k);
        }
        if exists|i: int| 0 <= i < s.len() && s[i].id == k {
            let i = choose|i: int| 0 <= i < s.len() && s[i].id == k;
            if i < s.len() - 1 {
                assert(s.drop_last()[i].id == k);
            }
        }
    }
}

proof fn lemma_map_of_index(s: Seq<ItemView>, i: int)
    requires
        unique_ids(s),
        0 <= i < s.len(),
    ensures
        map_of(s).contains_key(s[i].id),
        map_of(s)[s[i].id] == s[i],
    decreases s.len(),
{
    if i < s.len() - 1 {
        assert(unique_ids(s.drop_last()));
        assert(s.drop_last()[i] == s[i]);
        lemma_map_of_index(s.drop_last(), i);
        assert(s[i].id != s.last().id);
    }
}

proof fn lemma_map_of_len(s: Seq<ItemView>)
    requires
        unique_ids(s),
    ensures
        map_of(s).dom().len() == s.len(),
        map_of(s).dom().finite(),
    decreases s.len(),
{
    if s.len() > 0 {
        assert(unique_ids(s.drop_last()));
        lemma_map_of_len(s.drop_last());
        lemma_map_of_contains(s.drop_last(), s.last().id);
        if map_of(s.drop_last()).contains_key(s.last().id) {
            let i = choose|i: int| 0 <= i < s.drop_last().len() && s.drop_last()[i].id == s.last().id;
            assert(s[i].id == s[s.len() - 1].id);
        }
    }
}

/// Every item of a unique run is found under its id, and nothing else is.
proof fn lemma_map_of_eq(s: Seq<ItemView>, m: Map<Seq<char>, ItemView>)
    requires
        unique_ids(s),
        forall|i: int| 0 <= i < s.len() ==> #[trigger] m.contains_key(s[i].id) && m[s[i].id] == s[i],
        forall|k: Seq<char>| #[trigger] m.contains_key(k) ==> exists|i: int| 0 <= i < s.len() && s[i].id == k,
    ensures
        map_of(s) == m,
{
    assert forall|k: Seq<char>| #[trigger] map_of(s).contains_key(k) <==> m.contains_key(k) by {
        lemma_map_of_contains(s, k);
        if m.contains_key(k) {
            let i = choose|i: int| 0 <= i < s.len() && s[i].id == k;
            assert(m.contains_key(s[i].id));
        }
    }
    assert forall|k: Seq<char>| #[trigger] map_of(s).contains_key(k) implies map_of(s)[k] == m[k] by {
        lemma_map_of_contains(s, k);
        let i = choose|i: int| 0 <= i < s.len() && s[i].id == k;
        lemma_map_of_index(s, i);
        assert(m.contains_key(s[i].id));
    }
    assert(map_of(s) =~= m);
}

/// The in-memory index of a project: its items keyed by id.
pub struct Project {
    children: Vec<Item>,
}

impl View for Project {
    type V = Map<Seq<char>, ItemView>;

    closed spec fn view(&self) -> Map<Seq<char>, ItemView> {
        map_of(views(self.children@))
    }
}

/// Whether an item's parent is `parent` (`None` matches root-level items).
pub open spec fn parent_matches(it: ItemView, parent: Option<Seq<char>>) -> bool {
    it.parent == parent
}

/// Whether item `a` is listed before item `b` among siblings: higher rank
/// first, and for equal ranks the earlier timestamp first.
pub open spec fn sibling_before(a: ItemView, b: ItemView) -> bool {
    a.rank > b.rank || (a.rank == b.rank && a.at <= b.at)
}

impl Default for Item {
    /// An empty root item of type `text/plain`, dated at the Unix epoch.
    fn default() -> (r: Item)
        ensures
            r@ == (ItemView {
                id: Seq::empty(),
                at: 0,
                class: None,
                content_type: CONTENT_TYPE_DEFAULT@,
                content: Seq::empty(),
                rank: 0,
                parent: None,
            }),
    {
        Item {
            id: String::new(),
            at: 0,
            class: None,
            content_type: CONTENT_TYPE_DEFAULT.to_owned(),
            content: Vec::new(),
            rank: 0,
            parent: None,
        }
    }
}

impl Default for Project {
    /// An empty index.
    fn default() -> (r: Project)
        ensures
            r.wf(),
            r@ == Map::<Seq<char>, ItemView>::empty(),
    {
        Project::new()
    }
}

/// Whether `a` is listed before `b` among siblings.
fn sibling_before_exec(a: &Item, b: &Item) -> (r: bool)
    ensures
        r == sibling_before(a@, b@),
{
    a.rank > b.rank || (a.rank == b.rank && a.at <= b.at)
}

/// Siblings in listing order.
pub open spec fn sorted_siblings(s: Seq<ItemView>) -> bool {
    forall|a: int, b: int| 0 <= a < b < s.len() ==> sibling_before(#[trigger] s[a], #[trigger] s[b])
}

/// Every item of `s` is one of the first `i` of `cv`.
pub open spec fn members_of(s: Seq<ItemView>, cv: Seq<ItemView>, i: int) -> bool {
    forall|q: int| 0 <= q < s.len() ==> exists|j: int| 0 <= j < i && #[trigger] s[q] == cv[j]
}

/// Every item of `s` has the parent `pq`.
pub open spec fn all_match(s: Seq<ItemView>, pq: Option<Seq<char>>) -> bool {
    forall|q: int| 0 <= q < s.len() ==> parent_matches(#[trigger] s[q], pq)
}

/// Every one of the first `i` of `cv` with the parent `pq` is in `s`.
pub open spec fn covers(s: Seq<ItemView>, cv: Seq<ItemView>, i: int, pq: Option<Seq<char>>) -> bool {
    forall|j: int|
        0 <= j < i && parent_matches(#[trigger] cv[j], pq) ==> exists|q: int|
            0 <= q < s.len() && s[q] == cv[j]
}

proof fn lemma_insert_sorted(before: Seq<ItemView>, x: ItemView, p: int)
    requires
        sorted_siblings(before),
        0 <= p <= before.len(),
        forall|q: int| 0 <= q < p ==> sibling_before(#[trigger] before[q], x),
        p < before.len() ==> !sibling_before(before[p], x),
    ensures
        sorted_siblings(before.insert(p, x)),
{
    let s = before.insert(p, x);
    assert forall|a: int, b: int| 0 <= a < b < s.len() implies sibling_before(
        #[trigger] s[a],
        #[trigger] s[b],
    ) by {
        if b < p {
            assert(s[a] == before[a] && s[b] == before[b]);
        } else if a > p {
            assert(s[a] == before[a - 1] && s[b] == before[b - 1]);
        } else if a == p {
            assert(s[b] == before[b - 1]);
            if b - 1 > p {
                assert(sibling_before(before[p], before[b - 1]));
            }
        } else if b == p {
            assert(s[a] == before[a]);
        } else {
            assert(s[a] == before[a] && s[b] == before[b - 1]);
        }
    }
}

proof fn lemma_insert_members(
    before: Seq<ItemView>,
    x: ItemView,
    p: int,
    cv: Seq<ItemView>,
    i: int,
    pq: Option<Seq<char>>,
)
    requires
        0 <= p <= before.len(),
        0 <= i < cv.len(),
        unique_ids(cv),
        unique_ids(before),
        members_of(before, cv, i),
        all_match(before, pq),
        covers(before, cv, i, pq),
        x == cv[i],
        parent_matches(x, pq),
    ensures
        unique_ids(before.insert(p, x)),
        members_of(before.insert(p, x), cv, i + 1),
        all_match(before.insert(p, x), pq),
        covers(before.insert(p, x), cv, i + 1, pq),
{
    let s = before.insert(p, x);
    assert forall|q: int| 0 <= q < s.len() implies exists|j: int|
        0 <= j < i + 1 && #[trigger] s[q] == cv[j] by {
        if q < p {
            assert(s[q] == before[q]);
            let j = choose|j: int| 0 <= j < i && #[trigger] before[q] == cv[j];
        } else if q > p {
            assert(s[q] == before[q - 1]);
            let j = choose|j: int| 0 <= j < i && #[trigger] before[q - 1] == cv[j];
        } else {
            assert(s[q] == cv[i]);
        }
    }
    assert forall|q: int| 0 <= q < s.len() implies parent_matches(#[trigger] s[q], pq) by {
        if q < p {
            assert(s[q] == before[q]);
        } else if q > p {
            assert(s[q] == before[q - 1]);
        }
    }
    assert forall|j: int| 0 <= j < i + 1 && parent_matches(#[trigger] cv[j], pq) implies exists|q: int|
        0 <= q < s.len() && s[q] == cv[j] by {
        if j < i {
            let q0 = choose|q0: int| 0 <= q0 < before.len() && before[q0] == cv[j];
            if q0 < p {
                assert(s[q0] == before[q0]);
            } else {
                assert(s[q0 + 1] == before[q0]);
            }
        } else {
            assert(s[p] == cv[j]);
        }
    }
    lemma_insert_unique(before, x, p, cv, i);
}

proof fn lemma_insert_unique(before: Seq<ItemView>, x: ItemView, p: int, cv: Seq<ItemView>, i: int)
    requires
        0 <= p <= before.len(),
        0 <= i < cv.len(),
        unique_ids(cv),
        unique_ids(before),
        members_of(before, cv, i),
        x == cv[i],
    ensures
        unique_ids(before.insert(p, x)),
{
    let s = before.insert(p, x);
    assert forall|a: int, b: int| 0 <= a < s.len() && 0 <= b < s.len() && a != b implies s[a].id
        != s[b].id by {
        if a != p && b != p {
            let a0 = if a < p { a } else { a - 1 };
            let b0 = if b < p { b } else { b - 1 };
            assert(s[a] == before[a0] && s[b] == before[b0]);
        } else {
            let o = if a == p { b } else { a };
            let o0 = if o < p { o } else { o - 1 };
            assert(s[o] == before[o0]);
            let jo = choose|j: int| 0 <= j < i && #[trigger] before[o0] == cv[j];
            assert(cv[jo].id != cv[i].id);
        }
    }
}

/// How a walk up the parent chain ends.
pub enum WalkEnd {
    /// At an item with no parent.
    Root,
    /// At an id that no item has.
    Missing(Seq<char>),
    /// At the item being moved, or out of steps.
    Cycle,
}

/// Walks up from `x` through the parents in `m`, taking at most `fuel` steps,
/// watching for the item `id`.
pub open spec fn walk(m: Map<Seq<char>, ItemView>, x: Seq<char>, id: Seq<char>, fuel: nat) -> WalkEnd
    decreases fuel,
{
    if !m.contains_key(x) {
        WalkEnd::Missing(x)
    } else if x == id {
        WalkEnd::Cycle
    } else {
        match m[x].parent {
            None => WalkEnd::Root,
            Some(p) => if fuel == 0 {
                WalkEnd::Cycle
            } else {
                walk(m, p, id, (fuel - 1) as nat)
            },
        }
    }
}

/// `a` is `d` or one of its first `n` ancestors in `m`.
pub open spec fn on_chain(m: Map<Seq<char>, ItemView>, d: Seq<char>, a: Seq<char>, n: nat) -> bool
    decreases n,
{
    d == a || (n > 0 && m.contains_key(d) && m[d].parent is Some && on_chain(
        m,
        m[d].parent->Some_0,
        a,
        (n - 1) as nat,
    ))
}

/// Moving an item `a` under `d`, where `a` is `d` itself or one of its
/// ancestors, is found to close a cycle, however long the walk may be.
pub proof fn lemma_descendant_parent_is_cycle(
    m: Map<Seq<char>, ItemView>,
    d: Seq<char>,
    a: Seq<char>,
    n: nat,
    fuel: nat,
)
    requires
        m.contains_key(a),
        on_chain(m, d, a, n),
    ensures
        walk(m, d, a, fuel) == WalkEnd::Cycle,
    decreases n,
{
    if d != a {
        if fuel > 0 {
            lemma_descendant_parent_is_cycle(m, m[d].parent->Some_0, a, (n - 1) as nat, (fuel - 1) as nat);
        }
    }
}

/// The characters of an optional string slice.
pub open spec fn opt_str_view(o: Option<&str>) -> Option<Seq<char>> {
    match o {
        Some(s) => Some(s@),
        None => None,
    }
}

impl Item {
    /// A copy of this item.
    pub fn copy(&self) -> (r: Item)
        ensures
            r@ == self@,
    {
        Item {
            id: self.id.clone(),
            at: self.at,
            class: match &self.class {
                Some(c) => Some(c.clone()),
                None => None,
            },
            content_type: self.content_type.clone(),
            content: copy_bytes(self.content.as_slice()),
            rank: self.rank,
            parent: match &self.parent {
                Some(p) => Some(p.clone()),
                None => None,
            },
        }
    }
}

/// A copy of a byte vector.
pub fn copy_bytes(b: &[u8]) -> (r: Vec<u8>)
    ensures
        r@ == b@,
{
    let mut r: Vec<u8> = Vec::with_capacity(b.len());
    let mut i: usize = 0;
    while i < b.len()
        invariant
            i <= b@.len(),
            r@ == b@.subrange(0, i as int),
        decreases b@.len() - i,
    {
        r.push(b[i]);
        assert(r@ =~= b@.subrange(0, i + 1));
        i += 1;
    }
    assert(r@ =~= b@);
    r
}

/// Whether the optional parent `p` of an item matches the query `q`.
fn parent_is(p: &Option<String>, q: Option<&str>) -> (r: bool)
    ensures
        r == (opt_view(*p) == opt_str_view(q)),
{
    match (p, q) {
        (Some(a), Some(b)) => same_text(a.as_str(), b),
        (None, None) => true,
        _ => false,
    }
}

impl Project {
    /// The ids are unique and each item is stored under its own id.
    pub closed spec fn wf(&self) -> bool {
        unique_ids(views(self.children@))
    }

    /// An empty project.
    pub fn new() -> (r: Project)
        ensures
            r.wf(),
            r@ == Map::<Seq<char>, ItemView>::empty(),
    {
        let r = Project { children: Vec::new() };
        assert(views(r.children@) =~= Seq::<ItemView>::empty());
        r
    }

    /// Position of the item with id `id` in storage.
    fn find(&self, id: &str) -> (r: Option<usize>)
        requires
            self.wf(),
        ensures
            match r {
                Some(i) => i < self.children@.len() && self.children@[i as int].id@ == id@
                    && self@.contains_key(id@) && self@[id@] == self.children@[i as int]@,
                None => !self@.contains_key(id@),
            },
    {
        let mut i: usize = 0;
        while i < self.children.len()
            invariant
                self.wf(),
                i <= self.children@.len(),
                forall|j: int| 0 <= j < i ==> self.children@[j].id@ != id@,
            decreases self.children@.len() - i,
        {
            if same_text(self.children[i].id.as_str(), id) {
                proof {
                    assert(views(self.children@)[i as int] == self.children@[i as int]@);
                    lemma_map_of_index(views(self.children@), i as int);
                }
                return Some(i);
            }
            i += 1;
        }
        proof {
            lemma_map_of_contains(views(self.children@), id@);
            if self@.contains_key(id@) {
                let j = choose|j: int| 0 <= j < views(self.children@).len() && views(self.children@)[j].id == id@;
                assert(self.children@[j].id@ == id@);
            }
        }
        None
    }

    /// Number of items in the index.
    pub fn len(&self) -> (r: usize)
        requires
            self.wf(),
        ensures
            r == self@.dom().len(),
            self@.dom().finite(),
    {
        proof {
            lemma_map_of_len(views(self.children@));
        }
        self.children.len()
    }

    /// Whether an item with id `id` is in the index.
    pub fn contains(&self, id: &str) -> (r: bool)
        requires
            self.wf(),
        ensures
            r == self@.contains_key(id@),
    {
        self.find(id).is_some()
    }

    /// The item with id `id`, if any.
    pub fn get_item(&self, id: &str) -> (r: Option<Item>)
        requires
            self.wf(),
        ensures
            r is Some <==> self@.contains_key(id@),
            r matches Some(it) ==> it@ == self@[id@],
    {
        match self.find(id) {
            Some(i) => Some(self.children[i].copy()),
            None => None,
        }
    }

    /// Whether some item's parent is `parent`; with `None`, whether some item
    /// stands at the root.
    pub fn has_children(&self, parent: Option<&str>) -> (r: bool)
        requires
            self.wf(),
        ensures
            r == exists|k: Seq<char>|
                self@.contains_key(k) && parent_matches(#[trigger] self@[k], opt_str_view(parent)),
    {
        let mut i: usize = 0;
        while i < self.children.len()
            invariant
                self.wf(),
                i <= self.children@.len(),
                forall|j: int|
                    0 <= j < i ==> !parent_matches(#[trigger] views(self.children@)[j], opt_str_view(parent)),
            decreases self.children@.len() - i,
        {
            if parent_is(&self.children[i].parent, parent) {
                proof {
                    assert(views(self.children@)[i as int] == self.children@[i as int]@);
                    lemma_map_of_index(views(self.children@), i as int);
                    let k = self.children@[i as int].id@;
                    assert(self@.contains_key(k) && parent_matches(self@[k], opt_str_view(parent)));
                }
                return true;
            }
            i += 1;
        }
        proof {
            assert forall|k: Seq<char>| self@.contains_key(k) implies !parent_matches(
                #[trigger] self@[k],
                opt_str_view(parent),
            ) by {
                lemma_map_of_contains(views(self.children@), k);
                let j = choose|j: int| 0 <= j < views(self.children@).len() && views(self.children@)[j].id == k;
                lemma_map_of_index(views(self.children@), j);
            }
        }
        false
    }

    /// Adds `item` under its id, which must be new.
    pub fn insert_item(&mut self, item: Item)
        requires
            old(self).wf(),
            !old(self)@.contains_key(item.id@),
        ensures
            final(self).wf(),
            final(self)@ == old(self)@.insert(item.id@, item@),
    {
        let ghost k = item.id@;
        proof {
            lemma_map_of_contains(views(self.children@), k);
        }
        self.children.push(item);
        proof {
            assert(views(self.children@).drop_last() =~= views(old(self).children@));
            assert(views(self.children@).last() == self.children@.last()@);
            assert forall|i: int, j: int|
                0 <= i < views(self.children@).len() && 0 <= j < views(self.children@).len() && i
                    != j implies views(self.children@)[i].id != views(self.children@)[j].id by {
                if i < views(old(self).children@).len() && j < views(old(self).children@).len() {
                    assert(views(self.children@)[i] == views(old(self).children@)[i]);
                    assert(views(self.children@)[j] == views(old(self).children@)[j]);
                } else if i < views(old(self).children@).len() {
                    assert(views(self.children@)[i] == views(old(self).children@)[i]);
                } else if j < views(old(self).children@).len() {
                    assert(views(self.children@)[j] == views(old(self).children@)[j]);
                }
            }
        }
    }

    /// Removes the item with id `id`, which must be present.
    pub fn remove_item(&mut self, id: &str)
        requires
            old(self).wf(),
            old(self)@.contains_key(id@),
        ensures
            final(self).wf(),
            final(self)@ == old(self)@.remove(id@),
    {
        let i = match self.find(id) {
            Some(i) => i,
            None => {
                return ;
            },
        };
        let ghost olds = views(self.children@);
        let _ = self.children.remove(i);
        proof {
            let news = views(self.children@);
            assert(news =~= olds.remove(i as int));
            assert forall|a: int, b: int|
                0 <= a < news.len() && 0 <= b < news.len() && a != b implies news[a].id
                    != news[b].id by {
                let a0 = if a < i { a } else { a + 1 };
                let b0 = if b < i { b } else { b + 1 };
                assert(news[a] == olds[a0] && news[b] == olds[b0]);
            }
            let m = old(self)@.remove(id@);
            assert forall|a: int| 0 <= a < news.len() implies #[trigger] m.contains_key(news[a].id)
                && m[news[a].id] == news[a] by {
                let a0 = if a < i { a } else { a + 1 };
                assert(news[a] == olds[a0]);
                assert(olds[i as int].id == id@);
                assert(a0 != i);
                assert(olds[a0].id != olds[i as int].id);
                lemma_map_of_index(olds, a0);
                assert(map_of(olds).contains_key(news[a].id));
                assert(m.contains_key(news[a].id));
            }
            assert forall|k: Seq<char>| #[trigger] m.contains_key(k) implies exists|a: int|
                0 <= a < news.len() && news[a].id == k by {
                lemma_map_of_contains(olds, k);
                let a0 = choose|a0: int| 0 <= a0 < olds.len() && olds[a0].id == k;
                assert(a0 != i);
                let a = if a0 < i { a0 } else { a0 - 1 };
                assert(news[a] == olds[a0]);
            }
            lemma_map_of_eq(news, m);
        }
    }

    /// Puts `item` in place of the item with the same id, which must be present.
    pub fn replace_item(&mut self, item: Item)
        requires
            old(self).wf(),
            old(self)@.contains_key(item.id@),
        ensures
            final(self).wf(),
            final(self)@ == old(self)@.insert(item.id@, item@),
    {
        let i = match self.find(item.id.as_str()) {
            Some(i) => i,
            None => {
                return ;
            },
        };
        let ghost olds = views(self.children@);
        let ghost x = item@;
        self.children.set(i, item);
        proof {
            let news = views(self.children@);
            assert(news =~= olds.update(i as int, x));
            assert forall|a: int, b: int|
                0 <= a < news.len() && 0 <= b < news.len() && a != b implies news[a].id
                    != news[b].id by {
                assert(olds[i as int].id == x.id);
                if a != i {
                    assert(news[a] == olds[a]);
                }
                if b != i {
                    assert(news[b] == olds[b]);
                }
            }
            let m = old(self)@.insert(x.id, x);
            assert forall|a: int| 0 <= a < news.len() implies #[trigger] m.contains_key(news[a].id)
                && m[news[a].id] == news[a] by {
                if a != i {
                    assert(news[a] == olds[a]);
                    assert(olds[a].id != olds[i as int].id);
                    lemma_map_of_index(olds, a);
                    assert(map_of(olds).contains_key(olds[a].id));
                    assert(m.contains_key(news[a].id));
                    assert(m[news[a].id] == news[a]);
                } else {
                    assert(news[a] == x);
                    assert(m.contains_key(x.id));
                }
            }
            assert forall|k: Seq<char>| #[trigger] m.contains_key(k) implies exists|a: int|
                0 <= a < news.len() && news[a].id == k by {
                if k != x.id {
                    lemma_map_of_contains(olds, k);
                    let a = choose|a: int| 0 <= a < olds.len() && olds[a].id == k;
                    assert(news[a] == olds[a]);
                } else {
                    assert(news[i as int].id == k);
                }
            }
            lemma_map_of_eq(news, m);
        }
    }

    /// The items whose parent is `parent` (with `None`, those at the root),
    /// higher rank first and, for equal ranks, earlier timestamp first.
    pub fn list_children(&self, parent: Option<&str>) -> (r: Vec<Item>)
        requires
            self.wf(),
        ensures
            unique_ids(views(r@)),
            forall|q: int|
                0 <= q < r@.len() ==> self@.contains_key(#[trigger] r@[q].id@) && r@[q]@
                    == self@[r@[q].id@] && parent_matches(r@[q]@, opt_str_view(parent)),
            forall|k: Seq<char>|
                self@.contains_key(k) && parent_matches(#[trigger] self@[k], opt_str_view(parent))
                    ==> exists|q: int| 0 <= q < r@.len() && r@[q].id@ == k,
            sorted_siblings(views(r@)),
    {
        let ghost cv = views(self.children@);
        let ghost pq = opt_str_view(parent);
        let mut out: Vec<Item> = Vec::new();
        let mut i: usize = 0;
        while i < self.children.len()
            invariant
                self.wf(),
                cv == views(self.children@),
                pq == opt_str_view(parent),
                i <= self.children@.len(),
                unique_ids(views(out@)),
                members_of(views(out@), cv, i as int),
                all_match(views(out@), pq),
                covers(views(out@), cv, i as int, pq),
                sorted_siblings(views(out@)),
            decreases self.children@.len() - i,
        {
            assert(cv[i as int] == self.children@[i as int]@);
            if parent_is(&self.children[i].parent, parent) {
                let x = self.children[i].copy();
                let mut p: usize = 0;
                while p < out.len() && sibling_before_exec(&out[p], &x)
                    invariant
                        p <= out@.len(),
                        forall|q: int| 0 <= q < p ==> sibling_before(#[trigger] views(out@)[q], x@),
                    decreases out@.len() - p,
                {
                    p += 1;
                }
                let ghost before = views(out@);
                out.insert(p, x);
                proof {
                    assert(views(out@) =~= before.insert(p as int, x@));
                    lemma_insert_sorted(before, x@, p as int);
                    lemma_insert_members(before, x@, p as int, cv, i as int, pq);
                }
            } else {
                proof {
                    assert forall|j: int| 0 <= j < i + 1 && parent_matches(#[trigger] cv[j], pq)
                        implies exists|q: int| 0 <= q < views(out@).len() && views(out@)[q] == cv[j] by {
                        assert(j < i);
                    }
                    assert forall|q: int| 0 <= q < views(out@).len() implies exists|j: int|
                        0 <= j < i + 1 && #[trigger] views(out@)[q] == cv[j] by {
                        let j = choose|j: int| 0 <= j < i && #[trigger] views(out@)[q] == cv[j];
                    }
                }
            }
            i += 1;
        }
        proof {
            assert forall|q: int| 0 <= q < out@.len() implies self@.contains_key(#[trigger] out@[q].id@)
                && out@[q]@ == self@[out@[q].id@] && parent_matches(out@[q]@, opt_str_view(parent)) by {
                assert(views(out@)[q] == out@[q]@);
                let j = choose|j: int| 0 <= j < i && views(out@)[q] == cv[j];
                lemma_map_of_index(cv, j);
            }
            assert forall|k: Seq<char>|
                self@.contains_key(k) && parent_matches(#[trigger] self@[k], opt_str_view(parent))
                    implies exists|q: int| 0 <= q < out@.len() && out@[q].id@ == k by {
                lemma_map_of_contains(cv, k);
                let j = choose|j: int| 0 <= j < cv.len() && cv[j].id == k;
                lemma_map_of_index(cv, j);
                let q = choose|q: int| 0 <= q < views(out@).len() && views(out@)[q] == cv[j];
                assert(views(out@)[q] == out@[q]@);
            }
        }
        out
    }

    /// Walks the parent chain from `new_parent` to decide whether the item
    /// `id` may be nested under it: each item on the way must exist, and the
    /// walk must reach a root item within as many steps as there are items
    /// without meeting `id`.
    pub fn check_new_parent(&self, id: &str, new_parent: &str) -> (r: Result<(), AuError>)
        requires
            self.wf(),
        ensures
            match walk(self@, new_parent@, id@, self@.dom().len()) {
                WalkEnd::Root => r is Ok,
                WalkEnd::Missing(k) => r matches Err(AuError::NoSuchKey(s)) && s@ == k,
                WalkEnd::Cycle => r matches Err(AuError::InvalidOperation(s, m)) && s@
                    == new_parent@ && m@ == "has a cycle"@,
            },
    {
        let bound = self.len();
        let mut cur: String = new_parent.to_owned();
        let mut steps: usize = 0;
        loop
            invariant
                self.wf(),
                bound == self@.dom().len(),
                steps <= bound,
                walk(self@, new_parent@, id@, bound as nat) == walk(
                    self@,
                    cur@,
                    id@,
                    (bound - steps) as nat,
                ),
            decreases bound - steps,
        {
            let i = match self.find(cur.as_str()) {
                None => {
                    return Err(AuError::NoSuchKey(cur));
                },
                Some(i) => i,
            };
            if same_text(cur.as_str(), id) {
                return Err(AuError::InvalidOperation(new_parent.to_owned(), "has a cycle".to_owned()));
            }
            match &self.children[i].parent {
                None => {
                    return Ok(());
                },
                Some(p) => {
                    if steps == bound {
                        return Err(
                            AuError::InvalidOperation(new_parent.to_owned(), "has a cycle".to_owned()),
                        );
                    }
                    cur = p.clone();
                    steps = steps + 1;
                },
            }
        }
    }

    /// Each item of the index is stored under its own id.
    pub proof fn lemma_keys_are_ids(&self)
        requires
            self.wf(),
        ensures
            forall|k: Seq<char>| #[trigger] self@.contains_key(k) ==> self@[k].id == k,
    {
        assert forall|k: Seq<char>| #[trigger] self@.contains_key(k) implies self@[k].id == k by {
            lemma_map_of_contains(views(self.children@), k);
            let j = choose|j: int| 0 <= j < views(self.children@).len() && views(self.children@)[j].id == k;
            lemma_map_of_index(views(self.children@), j);
        }
    }
}

} // verus!
