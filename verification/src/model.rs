//! The domain model: pages, blocks, properties and links, block ordering,
//! and block hierarchies.
use vstd::prelude::*;
use crate::tasks::TaskStatus;
use crate::text::{
    blen, byte_len_wide, chars_of, lowercase_of, slice_chars, split_char, split_char_exec,
    starts_with, starts_with_exec, string_from, to_lowercase, trim, trim_chars,
};
use crate::utils::{parent_chars, parent_of, uuid_v4_text};

verus! {

broadcast use vstd::string::group_string_axioms;

// ------------------------------------------------------------------
// Pages
// ------------------------------------------------------------------

/// A page: the container of a tree of blocks.  Times are microseconds
/// since the Unix epoch (UTC).
#[derive(Debug, Clone)]
pub struct Page {
    pub id: i32,
    pub title: String,
    pub path: String,
    pub created_at: i64,
    pub updated_at: i64,
}

impl Page {
    /// A new page, not yet saved (its id is 0), created and updated now.
    pub fn new(title: String, path: String) -> (res: Page)
        ensures
            res.id == 0,
            res.title == title,
            res.path == path,
            res.created_at == res.updated_at,
    {
        let now = crate::utils::now();
        Page { id: 0, title, path, created_at: now, updated_at: now }
    }

    /// Whether this is a daily page: its path is a date `YYYY-MM-DD`.
    pub fn is_daily_page(&self) -> (res: bool)
        ensures
            res == crate::utils::date_text(self.path@),
    {
        crate::utils::is_date_path(self.path.as_str())
    }

    /// Whether this is a system page (its path starts with `_`).
    pub fn is_system_page(&self) -> (res: bool)
        ensures
            res == starts_with(self.path@, seq!['_']),
    {
        let p = chars_of(self.path.as_str());
        let u: [char; 1] = ['_'];
        let us: &[char] = &u;
        assert(us@ =~= seq!['_']);
        starts_with_exec(p.as_slice(), us)
    }

    /// The parent path: the path before its last `/`.
    pub fn parent_path(&self) -> (res: Option<String>)
        ensures
            match res {
                Some(v) => parent_of(self.path@) == Some(v@),
                None => parent_of(self.path@) is None,
            },
    {
        crate::utils::get_parent_dir(self.path.as_str())
    }
}

// ------------------------------------------------------------------
// Blocks
// ------------------------------------------------------------------

/// A block: the unit of content, placed on a page under an optional parent
/// and ordered among its siblings.
#[derive(Debug, Clone)]
pub struct Block {
    pub id: i32,
    pub uuid: String,
    pub page_id: i32,
    pub parent_id: Option<i32>,
    pub order: i32,
    pub content: String,
    pub is_encrypted: bool,
    pub created_at: i64,
    pub updated_at: i64,
}

/// The task status of a block's content: its trimmed, lowercased text
/// starts with a status word and a space.
pub open spec fn block_status_of(c: Seq<char>) -> Option<TaskStatus> {
    let l = lowercase_of(trim(c));
    if starts_with(l, "todo "@) {
        Some(TaskStatus::Todo)
    } else if starts_with(l, "doing "@) {
        Some(TaskStatus::Doing)
    } else if starts_with(l, "done "@) {
        Some(TaskStatus::Done)
    } else if starts_with(l, "waiting "@) {
        Some(TaskStatus::Waiting)
    } else if starts_with(l, "cancelled "@) {
        Some(TaskStatus::Cancelled)
    } else {
        None
    }
}

/// The content shown for a block: for a task, the trimmed text after its
/// first space, that is without the status word; otherwise the text itself.
pub open spec fn display_of(c: Seq<char>) -> Seq<char> {
    if block_status_of(c) is Some {
        let t = trim(c);
        match crate::text::find(t, seq![' ']) {
            Some(k) => t.subrange(k + 1, t.len() as int),
            None => t,
        }
    } else {
        c
    }
}

fn lit_prefix(l: &[char], lit: &str) -> (b: bool)
    ensures
        b == starts_with(l@, lit@),
{
    let p = chars_of(lit);
    starts_with_exec(l, p.as_slice())
}

fn block_status_exec(content: &str) -> (r: Option<TaskStatus>)
    ensures
        r == block_status_of(content@),
{
    let t = trim_chars(chars_of(content).as_slice());
    let low = to_lowercase(string_from(t.as_slice()).as_str());
    let l = chars_of(low.as_str());
    let s = l.as_slice();
    if lit_prefix(s, "todo ") {
        Some(TaskStatus::Todo)
    } else if lit_prefix(s, "doing ") {
        Some(TaskStatus::Doing)
    } else if lit_prefix(s, "done ") {
        Some(TaskStatus::Done)
    } else if lit_prefix(s, "waiting ") {
        Some(TaskStatus::Waiting)
    } else if lit_prefix(s, "cancelled ") {
        Some(TaskStatus::Cancelled)
    } else {
        None
    }
}

impl Block {
    /// A new block, not yet saved (its id is 0), with a fresh UUID, not
    /// encrypted, created and updated now.
    pub fn new(page_id: i32, parent_id: Option<i32>, content: String, order: i32) -> (res: Block)
        ensures
            res.id == 0,
            uuid_v4_text(res.uuid@),
            res.page_id == page_id,
            res.parent_id == parent_id,
            res.order == order,
            res.content == content,
            !res.is_encrypted,
            res.created_at == res.updated_at,
    {
        let now = crate::utils::now();
        Block {
            id: 0,
            uuid: crate::utils::generate_uuid(),
            page_id,
            parent_id,
            order,
            content,
            is_encrypted: false,
            created_at: now,
            updated_at: now,
        }
    }

    /// Whether the block is a task: its trimmed text starts, in any letter
    /// case, with a status word and a space.
    pub fn is_task(&self) -> (res: bool)
        ensures
            res == (block_status_of(self.content@) is Some),
    {
        block_status_exec(self.content.as_str()).is_some()
    }

    /// The task status of the block, if it is a task.
    pub fn task_status(&self) -> (res: Option<TaskStatus>)
        ensures
            res == block_status_of(self.content@),
    {
        block_status_exec(self.content.as_str())
    }

    /// Whether the block is a root block (it has no parent).
    pub fn is_root(&self) -> (res: bool)
        ensures
            res == (self.parent_id is None),
    {
        self.parent_id.is_none()
    }

    /// The content to display: without the status word for a task.
    pub fn display_content(&self) -> (res: String)
        ensures
            res@ == display_of(self.content@),
    {
        if self.task_status().is_some() {
            let c = trim_chars(chars_of(self.content.as_str()).as_slice());
            let n = c.len();
            let sp: [char; 1] = [' '];
            let s: &[char] = &sp;
            assert(s@ =~= seq![' ']);
            match crate::text::find_from_exec(c.as_slice(), s, 0) {
                Some(k) => {
                    proof {
                        crate::text::lemma_find_from_facts(c@, s@, 0);
                    }
                    string_from(slice_chars(c.as_slice(), k + 1, n).as_slice())
                },
                None => string_from(c.as_slice()),
            }
        } else {
            string_from(chars_of(self.content.as_str()).as_slice())
        }
    }
}

// ------------------------------------------------------------------
// Properties and links
// ------------------------------------------------------------------

/// The kind of a property value.
#[derive(Debug, Clone, Copy, PartialEq, Eq, Structural)]
pub enum PropertyType {
    Text,
    List,
}

/// The name of a property type.
pub open spec fn property_type_name(t: PropertyType) -> Seq<char> {
    match t {
        PropertyType::Text => "text"@,
        PropertyType::List => "list"@,
    }
}

impl PropertyType {
    /// The name of the property type: `text` or `list`.
    pub fn as_str(&self) -> (res: &'static str)
        ensures
            res@ == property_type_name(*self),
    {
        match self {
            PropertyType::Text => "text",
            PropertyType::List => "list",
        }
    }

    /// The property type named by a request: `list`, else text.
    pub fn from_request(value_type: &str) -> (res: PropertyType)
        ensures
            res == (if value_type@ == "list"@ {
                PropertyType::List
            } else {
                PropertyType::Text
            }),
    {
        let c = chars_of(value_type);
        if crate::text::chars_eq(c.as_slice(), chars_of("list").as_slice()) {
            PropertyType::List
        } else {
            PropertyType::Text
        }
    }
}

/// A key-value property stored for a block.
#[derive(Debug, Clone)]
pub struct BlockProperty {
    pub id: i32,
    pub block_id: i32,
    pub key: String,
    pub value: String,
    pub value_type: PropertyType,
}

/// A link from a block to a page.
#[derive(Debug, Clone)]
pub struct Link {
    pub id: i32,
    pub source_block_id: i32,
    pub target_page_id: i32,
    pub link_text: Option<String>,
}

/// Counts kept for monitoring a database.
#[derive(Debug, Clone, Copy, PartialEq, Eq, Structural)]
pub struct DatabaseStats {
    pub page_count: i32,
    pub block_count: i32,
    pub task_count: i32,
    pub database_size_bytes: i64,
}

} // verus!

verus! {

// ------------------------------------------------------------------
// Ordering of siblings
// ------------------------------------------------------------------

/// The gap left between the order values of neighbouring siblings.
pub const ORDER_GAP: i32 = 1000;

/// The order value of the first block among siblings.
pub const ORDER_INITIAL: i32 = ORDER_GAP;

/// Integer division by two, rounding toward zero (as `/` on `i32`).
pub open spec fn half_toward_zero(x: int) -> int {
    if x >= 0 {
        x / 2
    } else {
        -((-x) / 2)
    }
}

/// The order value for a block inserted at `position` among siblings with
/// order values `s` (in sibling order): the gap value when there are no
/// siblings, a gap before the first or after the last, the midpoint of the
/// two neighbours when they are more than one apart, and none (the
/// siblings must be reordered first) when they are not.
pub open spec fn insert_order(s: Seq<i32>, position: int) -> Option<int> {
    if s.len() == 0 {
        Some(ORDER_GAP as int)
    } else if position == 0 {
        Some(s[0] - ORDER_GAP)
    } else if position >= s.len() {
        Some(s[s.len() - 1] + ORDER_GAP)
    } else if s[position] - s[position - 1] > 1 {
        Some(half_toward_zero(s[position - 1] + s[position]))
    } else {
        None
    }
}

/// The arithmetic of `insert_order` stays within `i32`.
pub open spec fn insert_order_fits(s: Seq<i32>, position: int) -> bool {
    if s.len() == 0 {
        true
    } else if position == 0 {
        s[0] - ORDER_GAP >= i32::MIN
    } else if position >= s.len() {
        s[s.len() - 1] + ORDER_GAP <= i32::MAX
    } else {
        &&& i32::MIN <= s[position] - s[position - 1] <= i32::MAX
        &&& s[position] - s[position - 1] > 1 ==> i32::MIN <= s[position - 1] + s[position]
            <= i32::MAX
    }
}

/// Calculate the order value for inserting a block at `position` among
/// siblings whose order values are `sibling_orders`; `None` when there is
/// no room between the neighbours and the siblings must be reordered
/// first.
pub fn calculate_insert_order(sibling_orders: &[i32], position: usize) -> (res: Option<i32>)
    requires
        insert_order_fits(sibling_orders@, position as int),
    ensures
        match res {
            Some(o) => insert_order(sibling_orders@, position as int) == Some(o as int),
            None => insert_order(sibling_orders@, position as int) is None,
        },
{
    if sibling_orders.len() == 0 {
        return Some(ORDER_GAP);
    }
    if position == 0 {
        Some(sibling_orders[0] - ORDER_GAP)
    } else if position >= sibling_orders.len() {
        Some(sibling_orders[sibling_orders.len() - 1] + ORDER_GAP)
    } else {
        let prev_order = sibling_orders[position - 1];
        let next_order = sibling_orders[position];
        if next_order - prev_order > 1 {
            Some((prev_order + next_order) / 2)
        } else {
            None
        }
    }
}

/// Order values that strictly increase.
pub open spec fn strictly_increasing(s: Seq<i32>) -> bool {
    forall|i: int, j: int| 0 <= i < j < s.len() ==> s[i] < s[j]
}

/// Inserting between two siblings that are more than one apart gives an
/// order value strictly between them, so the siblings stay in order.
pub proof fn law_insert_between(s: Seq<i32>, position: int)
    requires
        strictly_increasing(s),
        0 < position < s.len(),
        s[position] - s[position - 1] > 1,
    ensures
        insert_order(s, position) matches Some(o) && s[position - 1] < o < s[position],
{
    let a = s[position - 1] as int;
    let b = s[position] as int;
    assert(a < half_toward_zero(a + b) < b) by (nonlinear_arith)
        requires
            b - a > 1,
    {
        if a + b >= 0 {
            assert(2 * ((a + b) / 2) <= a + b);
            assert(2 * ((a + b) / 2) >= a + b - 1);
        } else {
            assert(2 * ((-(a + b)) / 2) <= -(a + b));
            assert(2 * ((-(a + b)) / 2) >= -(a + b) - 1);
        }
    }
}

/// Inserting before the first sibling or after the last gives an order
/// value before the first or after the last.
pub proof fn law_insert_at_ends(s: Seq<i32>, position: int)
    requires
        s.len() > 0,
        position == 0 || position >= s.len(),
    ensures
        position == 0 ==> (insert_order(s, position) matches Some(o) && o < s[0]),
        position >= s.len() ==> (insert_order(s, position) matches Some(o) && o > s[s.len() - 1]),
{
}

/// The order values `ORDER_GAP`, `2 * ORDER_GAP`, ... for `count` siblings.
pub open spec fn reordered_values(count: nat) -> Seq<i32> {
    Seq::new(count, |i: int| ((i + 1) * ORDER_GAP) as i32)
}

/// Generate fresh order values, a gap apart, for `count` siblings.
pub fn generate_reordered_values(count: usize) -> (res: Vec<i32>)
    requires
        count * ORDER_GAP <= i32::MAX,
    ensures
        res@ == reordered_values(count as nat),
{
    let mut res: Vec<i32> = Vec::new();
    let mut i: usize = 0;
    while i < count
        invariant
            i <= count,
            count * ORDER_GAP <= i32::MAX,
            res@ == reordered_values(i as nat),
        decreases count - i,
    {
        assert((i + 1) * ORDER_GAP <= count * ORDER_GAP) by (nonlinear_arith)
            requires
                i < count,
        ;
        let v = (i as i32 + 1) * ORDER_GAP;
        res.push(v);
        proof {
            assert(res@ =~= reordered_values((i + 1) as nat));
        }
        i = i + 1;
    }
    res
}

/// After reordering, a block can be inserted at any position without a
/// further reordering, and its order value falls between its neighbours
/// (for as many siblings as keep the sums of order values within `i32`).
pub proof fn law_reordered_leaves_room(count: nat, position: int)
    requires
        count >= 1,
        2 * count * ORDER_GAP <= i32::MAX,
        0 <= position,
    ensures
        strictly_increasing(reordered_values(count)),
        insert_order_fits(reordered_values(count), position),
        insert_order(reordered_values(count), position) is Some,
        0 < position < count ==> (insert_order(reordered_values(count), position) matches Some(o)
            && reordered_values(count)[position - 1] < o < reordered_values(count)[position]),
{
    let v = reordered_values(count);
    assert forall|i: int| 0 <= i < count implies v[i] == (i + 1) * ORDER_GAP by {
        assert((i + 1) * ORDER_GAP <= count * ORDER_GAP) by (nonlinear_arith)
            requires
                0 <= i < count,
        ;
    }
    assert forall|i: int, j: int| 0 <= i < j < v.len() implies v[i] < v[j] by {
        assert((i + 1) * ORDER_GAP < (j + 1) * ORDER_GAP) by (nonlinear_arith)
            requires
                i < j,
        ;
    }
    assert((count + 1) * ORDER_GAP <= 2 * count * ORDER_GAP) by (nonlinear_arith)
        requires
            count >= 1,
    ;
    if 0 < position < count {
        assert(v[position - 1] + v[position] <= 2 * count * ORDER_GAP) by (nonlinear_arith)
            requires
                v[position] == (position + 1) * ORDER_GAP,
                v[position - 1] == position * ORDER_GAP,
                position < count,
        ;
        assert(v[position] - v[position - 1] == ORDER_GAP) by (nonlinear_arith)
            requires
                v[position] == (position + 1) * ORDER_GAP,
                v[position - 1] == position * ORDER_GAP,
        ;
        law_insert_between(v, position);
    }
}

} // verus!

verus! {

// ------------------------------------------------------------------
// Block hierarchies
// ------------------------------------------------------------------

/// A block with its properties and the hierarchies of its children.
#[derive(Debug)]
pub struct BlockHierarchy {
    pub block: Block,
    pub children: Vec<BlockHierarchy>,
    pub properties: Vec<BlockProperty>,
}

/// The number of blocks in a hierarchy.
pub open spec fn tree_size(h: BlockHierarchy) -> nat
    decreases h,
{
    1 + forest_size(h.children@)
}

/// The number of blocks in a sequence of hierarchies.
pub open spec fn forest_size(f: Seq<BlockHierarchy>) -> nat
    decreases f,
{
    if f.len() == 0 {
        0
    } else {
        forest_size(f.drop_last()) + tree_size(f.last())
    }
}

/// `x` inserted into `s` after every element whose order is not greater
/// than that of `x` at the end of `s` (so among equal orders it comes
/// last).
pub open spec fn insert_by_order(s: Seq<BlockHierarchy>, x: BlockHierarchy) -> Seq<BlockHierarchy>
    decreases s.len(),
{
    if s.len() == 0 {
        seq![x]
    } else if s.last().block.order <= x.block.order {
        s.push(x)
    } else {
        insert_by_order(s.drop_last(), x).push(s.last())
    }
}

/// The hierarchies stably sorted by the order of their blocks.
pub open spec fn sort_by_order(s: Seq<BlockHierarchy>) -> Seq<BlockHierarchy>
    decreases s.len(),
{
    if s.len() == 0 {
        s
    } else {
        insert_by_order(sort_by_order(s.drop_last()), s.last())
    }
}

/// `new` is `old` with the children at every level sorted by order: the
/// same block and properties, and children that are, one by one, the
/// sorted forms of the old children sorted by order.
pub open spec fn tree_sorted_of(new: BlockHierarchy, old: BlockHierarchy) -> bool
    decreases new,
{
    &&& new.block == old.block
    &&& new.properties == old.properties
    &&& forest_sorted_of(new.children@, sort_by_order(old.children@))
}

/// Each of `new` is the sorted form of the one of `old` at its place.
pub open spec fn forest_sorted_of(new: Seq<BlockHierarchy>, old: Seq<BlockHierarchy>) -> bool
    decreases new,
{
    if new.len() == 0 {
        old.len() == 0
    } else {
        &&& old.len() > 0
        &&& tree_sorted_of(new.last(), old.last())
        &&& forest_sorted_of(new.drop_last(), old.drop_last())
    }
}

/// Whether the orders of the blocks do not decrease along the sequence.
pub open spec fn orders_sorted(s: Seq<BlockHierarchy>) -> bool {
    forall|i: int, j: int| 0 <= i < j < s.len() ==> s[i].block.order <= s[j].block.order
}

} // verus!

verus! {

pub proof fn lemma_forest_size_prefix(s: Seq<BlockHierarchy>, i: int)
    requires
        0 <= i <= s.len(),
    ensures
        forest_size(s.take(i)) <= forest_size(s),
    decreases s.len(),
{
    if i < s.len() {
        assert(s.drop_last().take(i) =~= s.take(i));
        lemma_forest_size_prefix(s.drop_last(), i);
    } else {
        assert(s.take(i) =~= s);
    }
}

pub proof fn lemma_forest_sorted_len(new: Seq<BlockHierarchy>, old: Seq<BlockHierarchy>)
    requires
        forest_sorted_of(new, old),
    ensures
        new.len() == old.len(),
    decreases new.len(),
{
    if new.len() > 0 {
        lemma_forest_sorted_len(new.drop_last(), old.drop_last());
    }
}

/// Sorting a level commutes with sorting each hierarchy of it: inserting
/// sorted forms gives the sorted forms of the insertions.
proof fn lemma_insert_sorted_forms(
    a: Seq<BlockHierarchy>,
    b: Seq<BlockHierarchy>,
    x: BlockHierarchy,
    y: BlockHierarchy,
)
    requires
        forest_sorted_of(a, b),
        tree_sorted_of(x, y),
    ensures
        forest_sorted_of(insert_by_order(a, x), insert_by_order(b, y)),
    decreases a.len(),
{
    lemma_forest_sorted_len(a, b);
    assert(x.block == y.block);
    if a.len() > 0 {
        assert(tree_sorted_of(a.last(), b.last()));
        assert(a.last().block == b.last().block);
        assert(forest_sorted_of(a.drop_last(), b.drop_last()));
    }
    if a.len() == 0 {
        assert(insert_by_order(a, x) =~= seq![x]);
        assert(insert_by_order(b, y) =~= seq![y]);
        assert(seq![x].drop_last() =~= a);
        assert(seq![y].drop_last() =~= b);
    } else if a.last().block.order <= x.block.order {
        assert(a.push(x).drop_last() =~= a);
        assert(b.push(y).drop_last() =~= b);
    } else {
        lemma_insert_sorted_forms(a.drop_last(), b.drop_last(), x, y);
        let ia = insert_by_order(a.drop_last(), x);
        let ib = insert_by_order(b.drop_last(), y);
        assert(ia.push(a.last()).drop_last() =~= ia);
        assert(ib.push(b.last()).drop_last() =~= ib);
    }
}

proof fn lemma_sort_sorted_forms(a: Seq<BlockHierarchy>, b: Seq<BlockHierarchy>)
    requires
        forest_sorted_of(a, b),
    ensures
        forest_sorted_of(sort_by_order(a), sort_by_order(b)),
    decreases a.len(),
{
    lemma_forest_sorted_len(a, b);
    if a.len() > 0 {
        lemma_sort_sorted_forms(a.drop_last(), b.drop_last());
        lemma_insert_sorted_forms(
            sort_by_order(a.drop_last()),
            sort_by_order(b.drop_last()),
            a.last(),
            b.last(),
        );
    }
}

fn insert_by_order_exec(v: &mut Vec<BlockHierarchy>, x: BlockHierarchy)
    ensures
        final(v)@ == insert_by_order(old(v)@, x),
    decreases old(v)@.len(),
{
    if v.len() == 0 {
        v.push(x);
        assert(v@ =~= seq![x]);
    } else if v[v.len() - 1].block.order <= x.block.order {
        v.push(x);
    } else {
        let last = v.pop().unwrap();
        insert_by_order_exec(v, x);
        v.push(last);
    }
}

/// Stably sort hierarchies by the order of their blocks.
fn sort_by_order_exec(v: Vec<BlockHierarchy>) -> (r: Vec<BlockHierarchy>)
    ensures
        r@ == sort_by_order(v@),
    decreases v@.len(),
{
    let mut v = v;
    if v.len() == 0 {
        return v;
    }
    let ghost whole = v@;
    let last = v.pop().unwrap();
    assert(v@ == whole.drop_last());
    let mut s = sort_by_order_exec(v);
    insert_by_order_exec(&mut s, last);
    s
}

/// The sorted form of each hierarchy of a level, the level itself left in
/// place.
fn sort_each(kids: Vec<BlockHierarchy>) -> (r: Vec<BlockHierarchy>)
    ensures
        forest_sorted_of(r@, kids@),
    decreases kids,
{
    let ghost orig = kids@;
    let n = kids.len();
    let mut rest = kids;
    let mut out: Vec<BlockHierarchy> = Vec::new();
    let mut i: usize = 0;
    while rest.len() > 0
        invariant
            i <= orig.len(),
            rest@ == orig.skip(i as int),
            forest_sorted_of(out@, orig.take(i as int)),
            orig == kids@,
            orig.len() == n,
        decreases rest@.len(),
    {
        let c = rest.remove(0);
        assert(c == orig[i as int]);
        proof {
            assert(decreases_to!(kids => kids@));
            assert(decreases_to!(kids@ => kids@[i as int]));
        }
        let sc = sort_tree(c);
        let ghost prev = out@;
        out.push(sc);
        proof {
            assert(out@.drop_last() =~= prev);
            assert(orig.take(i + 1).drop_last() =~= orig.take(i as int));
            assert(rest@ =~= orig.skip(i + 1));
        }
        i = i + 1;
    }
    assert(orig.take(i as int) =~= orig);
    out
}

/// The hierarchy with its children at every level sorted by order.
fn sort_tree(h: BlockHierarchy) -> (r: BlockHierarchy)
    ensures
        tree_sorted_of(r, h),
    decreases h,
{
    let BlockHierarchy { block, children, properties } = h;
    let ghost old_children = children@;
    let each = sort_each(children);
    let sorted = sort_by_order_exec(each);
    proof {
        lemma_sort_sorted_forms(each@, old_children);
    }
    BlockHierarchy { block, children: sorted, properties }
}

impl BlockHierarchy {
    /// A hierarchy of one block, with no children and no properties.
    pub fn new(block: Block) -> (res: BlockHierarchy)
        ensures
            res.block == block,
            res.children@ == Seq::<BlockHierarchy>::empty(),
            res.properties@ == Seq::<BlockProperty>::empty(),
    {
        BlockHierarchy { block, children: Vec::new(), properties: Vec::new() }
    }

    /// Add a child after the existing ones.
    pub fn add_child(&mut self, child: BlockHierarchy)
        ensures
            final(self).block == old(self).block,
            final(self).properties == old(self).properties,
            final(self).children@ == old(self).children@.push(child),
    {
        self.children.push(child);
    }

    /// Sort the children at every level by order (a stable sort: children
    /// with equal orders keep their places relative to each other).
    pub fn sort_children(&mut self)
        ensures
            tree_sorted_of(*final(self), *old(self)),
    {
        let mut kids: Vec<BlockHierarchy> = Vec::new();
        std::mem::swap(&mut kids, &mut self.children);
        let ghost old_kids = kids@;
        let each = sort_each(kids);
        let sorted = sort_by_order_exec(each);
        proof {
            lemma_sort_sorted_forms(each@, old_kids);
        }
        self.children = sorted;
    }

    /// The number of blocks in the hierarchy.
    pub fn block_count(&self) -> (res: usize)
        requires
            tree_size(*self) <= usize::MAX,
        ensures
            res == tree_size(*self),
        decreases self,
    {
        let mut total: usize = 1;
        let mut i: usize = 0;
        while i < self.children.len()
            invariant
                i <= self.children@.len(),
                tree_size(*self) <= usize::MAX,
                total == 1 + forest_size(self.children@.take(i as int)),
            decreases self.children@.len() - i,
        {
            proof {
                assert(self.children@.take(i + 1).drop_last() =~= self.children@.take(i as int));
                lemma_forest_size_prefix(self.children@, i + 1);
                assert(decreases_to!(self.children => self.children@));
            }
            let c = self.children[i].block_count();
            total = total + c;
            i = i + 1;
        }
        assert(self.children@.take(i as int) =~= self.children@);
        total
    }
}

} // verus!

verus! {

proof fn lemma_insert_by_order_facts(s: Seq<BlockHierarchy>, x: BlockHierarchy)
    ensures
        orders_sorted(s) ==> orders_sorted(insert_by_order(s, x)),
        insert_by_order(s, x).to_multiset() == s.to_multiset().insert(x),
        insert_by_order(s, x).len() == s.len() + 1,
        forall|i: int|
            0 <= i < insert_by_order(s, x).len() ==> (#[trigger] insert_by_order(s, x)[i]
                == x || s.contains(insert_by_order(s, x)[i])),
    decreases s.len(),
{
    broadcast use vstd::seq_lib::to_multiset_build;

    if s.len() == 0 {
        assert(insert_by_order(s, x) =~= s.push(x));
    } else if s.last().block.order <= x.block.order {
    } else {
        let d = s.drop_last();
        lemma_insert_by_order_facts(d, x);
        let r = insert_by_order(d, x);
        assert(s =~= d.push(s.last()));
        assert(r.push(s.last()).to_multiset() =~= r.to_multiset().insert(s.last()));
        assert(s.to_multiset() =~= d.to_multiset().insert(s.last()));
        assert(r.to_multiset() =~= d.to_multiset().insert(x));
        assert(r.push(s.last()).to_multiset() =~= s.to_multiset().insert(x));
        assert forall|i: int|
            0 <= i < r.push(s.last()).len() implies (#[trigger] r.push(s.last())[i] == x
            || s.contains(r.push(s.last())[i])) by {
            if i < r.len() {
                if r[i] != x {
                    let j = choose|j: int| 0 <= j < d.len() && d[j] == r[i];
                    assert(s[j] == d[j]);
                }
            } else {
                assert(s[s.len() - 1] == s.last());
            }
        }
        if orders_sorted(s) {
            // every element of `r` is `x` or an element of `d`, whose orders do
            // not exceed that of the last element of `s`
            assert forall|i: int, j: int|
                0 <= i < j < r.push(s.last()).len() implies r.push(s.last())[i].block.order
                <= r.push(s.last())[j].block.order by {
                if j == r.len() {
                    if r[i] == x {
                    } else {
                        let k = choose|k: int| 0 <= k < d.len() && d[k] == r[i];
                        assert(s[k] == d[k]);
                        assert(s[s.len() - 1] == s.last());
                    }
                }
            }
        }
    }
}

/// Sorting by order gives hierarchies whose orders do not decrease.
pub proof fn law_sort_by_order_sorted(s: Seq<BlockHierarchy>)
    ensures
        orders_sorted(sort_by_order(s)),
    decreases s.len(),
{
    if s.len() > 0 {
        law_sort_by_order_sorted(s.drop_last());
        lemma_insert_by_order_facts(sort_by_order(s.drop_last()), s.last());
    }
}

/// Sorting by order keeps every hierarchy, as often as it occurs.
pub proof fn law_sort_by_order_permutes(s: Seq<BlockHierarchy>)
    ensures
        sort_by_order(s).to_multiset() == s.to_multiset(),
    decreases s.len(),
{
    broadcast use vstd::seq_lib::to_multiset_build;

    if s.len() > 0 {
        law_sort_by_order_permutes(s.drop_last());
        lemma_insert_by_order_facts(sort_by_order(s.drop_last()), s.last());
        assert(s =~= s.drop_last().push(s.last()));
    }
}

/// Hierarchies already in order are left as they are (the sort is
/// stable).
pub proof fn law_sort_by_order_keeps_sorted(s: Seq<BlockHierarchy>)
    requires
        orders_sorted(s),
    ensures
        sort_by_order(s) == s,
    decreases s.len(),
{
    if s.len() > 0 {
        let d = s.drop_last();
        assert(orders_sorted(d));
        law_sort_by_order_keeps_sorted(d);
        if d.len() > 0 {
            assert(d.last() == s[s.len() - 2]);
        }
        assert(d.push(s.last()) =~= s);
    }
}

} // verus!

verus! {

// ------------------------------------------------------------------
// Building hierarchies from flat blocks
// ------------------------------------------------------------------

/// Some block of `bs` has the id `id`.
pub open spec fn has_block_id(bs: Seq<Block>, id: i32) -> bool
    decreases bs.len(),
{
    if bs.len() == 0 {
        false
    } else {
        has_block_id(bs.drop_last(), id) || bs.last().id == id
    }
}

/// A block is a root of the page `bs`: it has no parent, or its parent is
/// not among the blocks of the page.
pub open spec fn is_root_of(bs: Seq<Block>, b: Block) -> bool {
    match b.parent_id {
        None => true,
        Some(p) => !has_block_id(bs, p),
    }
}

/// The blocks of `s` that are roots of the page `bs`, in their order.
pub open spec fn roots_among(bs: Seq<Block>, s: Seq<Block>) -> Seq<Block>
    decreases s.len(),
{
    if s.len() == 0 {
        Seq::empty()
    } else if is_root_of(bs, s.last()) {
        roots_among(bs, s.drop_last()).push(s.last())
    } else {
        roots_among(bs, s.drop_last())
    }
}

/// The blocks of `s` whose parent is `id`, in their order.
pub open spec fn children_among(s: Seq<Block>, id: i32) -> Seq<Block>
    decreases s.len(),
{
    if s.len() == 0 {
        Seq::empty()
    } else if s.last().parent_id == Some(id) {
        children_among(s.drop_last(), id).push(s.last())
    } else {
        children_among(s.drop_last(), id)
    }
}

/// `b` inserted into `s` after every block whose order is not greater
/// than its own at the end of `s`.
pub open spec fn insert_block_by_order(s: Seq<Block>, b: Block) -> Seq<Block>
    decreases s.len(),
{
    if s.len() == 0 {
        seq![b]
    } else if s.last().order <= b.order {
        s.push(b)
    } else {
        insert_block_by_order(s.drop_last(), b).push(s.last())
    }
}

/// The blocks stably sorted by their order.
pub open spec fn blocks_by_order(s: Seq<Block>) -> Seq<Block>
    decreases s.len(),
{
    if s.len() == 0 {
        s
    } else {
        insert_block_by_order(blocks_by_order(s.drop_last()), s.last())
    }
}

/// Whether `t` is the hierarchy of block `b` in the page `bs`, down to
/// `fuel` levels: no properties, and as children the hierarchies of the
/// blocks whose parent is `b`, sorted by order; below the last level
/// nothing hangs.
pub open spec fn block_tree_of(t: BlockHierarchy, bs: Seq<Block>, b: Block, fuel: nat) -> bool
    decreases t,
{
    &&& t.block == b
    &&& t.properties@.len() == 0
    &&& if fuel == 0 {
        t.children@.len() == 0
    } else {
        block_forest_of(
            t.children@,
            bs,
            blocks_by_order(children_among(bs, b.id)),
            (fuel - 1) as nat,
        )
    }
}

/// Whether each of `ts` is the hierarchy, as `block_tree_of` says, of the
/// block at the same place in `ns`.
pub open spec fn block_forest_of(ts: Seq<BlockHierarchy>, bs: Seq<Block>, ns: Seq<Block>, fuel: nat) -> bool
    decreases ts,
{
    &&& ts.len() == ns.len()
    &&& ts.len() > 0 ==> {
        &&& block_forest_of(ts.drop_last(), bs, ns.drop_last(), fuel)
        &&& block_tree_of(ts.last(), bs, ns.last(), fuel)
    }
}

/// Whether `res` is the hierarchy of the page with blocks `blocks`: the
/// hierarchies of its roots, sorted by order, each down to
/// `blocks.len()` levels.
pub open spec fn hierarchy_of(res: Seq<BlockHierarchy>, blocks: Seq<Block>) -> bool {
    block_forest_of(res, blocks, blocks_by_order(roots_among(blocks, blocks)), blocks.len())
}

/// `block_forest_of` holds just when the lengths agree and each hierarchy
/// belongs to the block at its place.
pub proof fn lemma_block_forest_of(ts: Seq<BlockHierarchy>, bs: Seq<Block>, ns: Seq<Block>, fuel: nat)
    ensures
        block_forest_of(ts, bs, ns, fuel) <==> (ts.len() == ns.len() && forall|i: int|
            0 <= i < ts.len() ==> #[trigger] block_tree_of(ts[i], bs, ns[i], fuel)),
    decreases ts.len(),
{
    if ts.len() > 0 && ts.len() == ns.len() {
        lemma_block_forest_of(ts.drop_last(), bs, ns.drop_last(), fuel);
        if forall|i: int| 0 <= i < ts.len() ==> #[trigger] block_tree_of(ts[i], bs, ns[i], fuel) {
            assert forall|i: int| 0 <= i < ts.drop_last().len() implies #[trigger] block_tree_of(
                ts.drop_last()[i],
                bs,
                ns.drop_last()[i],
                fuel,
            ) by {
                assert(block_tree_of(ts[i], bs, ns[i], fuel));
            }
            assert(block_tree_of(ts[ts.len() - 1], bs, ns[ns.len() - 1], fuel));
            assert(block_forest_of(ts, bs, ns, fuel));
        }
        if block_forest_of(ts, bs, ns, fuel) {
            assert forall|i: int| 0 <= i < ts.len() implies #[trigger] block_tree_of(ts[i], bs, ns[i], fuel) by {
                if i < ts.len() - 1 {
                    assert(block_tree_of(ts.drop_last()[i], bs, ns.drop_last()[i], fuel));
                } else {
                    assert(ts.last() == ts[i] && ns.last() == ns[i]);
                }
            }
        }
    }
}

fn copy_block(b: &Block) -> (r: Block)
    ensures
        r == *b,
{
    Block {
        id: b.id,
        uuid: b.uuid.clone(),
        page_id: b.page_id,
        parent_id: b.parent_id,
        order: b.order,
        content: b.content.clone(),
        is_encrypted: b.is_encrypted,
        created_at: b.created_at,
        updated_at: b.updated_at,
    }
}

fn has_block_id_exec(bs: &Vec<Block>, id: i32) -> (r: bool)
    ensures
        r == has_block_id(bs@, id),
{
    let mut i: usize = 0;
    let mut found = false;
    while i < bs.len()
        invariant
            i <= bs@.len(),
            found == has_block_id(bs@.take(i as int), id),
        decreases bs@.len() - i,
    {
        proof {
            assert(bs@.take(i + 1).drop_last() =~= bs@.take(i as int));
        }
        found = found || bs[i].id == id;
        i = i + 1;
    }
    assert(bs@.take(i as int) =~= bs@);
    found
}

fn roots_exec(bs: &Vec<Block>) -> (r: Vec<Block>)
    ensures
        r@ == roots_among(bs@, bs@),
{
    let mut out: Vec<Block> = Vec::new();
    let mut i: usize = 0;
    while i < bs.len()
        invariant
            i <= bs@.len(),
            out@ == roots_among(bs@, bs@.take(i as int)),
        decreases bs@.len() - i,
    {
        proof {
            assert(bs@.take(i + 1).drop_last() =~= bs@.take(i as int));
        }
        let root = match bs[i].parent_id {
            None => true,
            Some(p) => !has_block_id_exec(bs, p),
        };
        if root {
            out.push(copy_block(&bs[i]));
        }
        i = i + 1;
    }
    assert(bs@.take(i as int) =~= bs@);
    out
}

fn children_exec(bs: &Vec<Block>, id: i32) -> (r: Vec<Block>)
    ensures
        r@ == children_among(bs@, id),
{
    let mut out: Vec<Block> = Vec::new();
    let mut i: usize = 0;
    while i < bs.len()
        invariant
            i <= bs@.len(),
            out@ == children_among(bs@.take(i as int), id),
        decreases bs@.len() - i,
    {
        proof {
            assert(bs@.take(i + 1).drop_last() =~= bs@.take(i as int));
        }
        if bs[i].parent_id == Some(id) {
            out.push(copy_block(&bs[i]));
        }
        i = i + 1;
    }
    assert(bs@.take(i as int) =~= bs@);
    out
}

fn insert_block_by_order_exec(v: &mut Vec<Block>, b: Block)
    ensures
        final(v)@ == insert_block_by_order(old(v)@, b),
    decreases old(v)@.len(),
{
    if v.len() == 0 {
        v.push(b);
        assert(v@ =~= seq![b]);
    } else if v[v.len() - 1].order <= b.order {
        v.push(b);
    } else {
        let last = v.pop().unwrap();
        insert_block_by_order_exec(v, b);
        v.push(last);
    }
}

fn blocks_by_order_exec(v: Vec<Block>) -> (r: Vec<Block>)
    ensures
        r@ == blocks_by_order(v@),
    decreases v@.len(),
{
    let mut v = v;
    if v.len() == 0 {
        return v;
    }
    let ghost whole = v@;
    let last = v.pop().unwrap();
    assert(v@ == whole.drop_last());
    let mut s = blocks_by_order_exec(v);
    insert_block_by_order_exec(&mut s, last);
    s
}

fn build_block_tree(bs: &Vec<Block>, b: Block, fuel: usize) -> (t: BlockHierarchy)
    ensures
        block_tree_of(t, bs@, b, fuel as nat),
    decreases fuel,
{
    let mut children: Vec<BlockHierarchy> = Vec::new();
    let ghost kids_spec = blocks_by_order(children_among(bs@, b.id));
    if fuel > 0 {
        let kids = blocks_by_order_exec(children_exec(bs, b.id));
        let mut i: usize = 0;
        while i < kids.len()
            invariant
                fuel > 0,
                kids@ == kids_spec,
                i <= kids@.len(),
                children@.len() == i,
                forall|j: int|
                    0 <= j < i ==> #[trigger] block_tree_of(
                        children@[j],
                        bs@,
                        kids_spec[j],
                        (fuel - 1) as nat,
                    ),
            decreases kids@.len() - i,
        {
            let c = build_block_tree(bs, copy_block(&kids[i]), fuel - 1);
            children.push(c);
            i = i + 1;
        }
    }
    let t = BlockHierarchy { block: b, children, properties: Vec::new() };
    proof {
        if fuel > 0 {
            lemma_block_forest_of(t.children@, bs@, kids_spec, (fuel - 1) as nat);
        }
    }
    t
}

/// Build the hierarchy of a page from its flat blocks: the roots are the
/// blocks without a parent among the page's blocks, sorted by order; under
/// each block hang the blocks whose parent it is, sorted by order, and so
/// on down, for as many levels as there are blocks (which only a chain of
/// parents that runs in a circle can reach).
pub fn build_block_hierarchy(blocks: Vec<Block>) -> (res: Vec<BlockHierarchy>)
    ensures
        hierarchy_of(res@, blocks@),
{
    let roots = blocks_by_order_exec(roots_exec(&blocks));
    let ghost rs = roots@;
    let mut out: Vec<BlockHierarchy> = Vec::new();
    let mut i: usize = 0;
    while i < roots.len()
        invariant
            roots@ == rs,
            rs == blocks_by_order(roots_among(blocks@, blocks@)),
            i <= rs.len(),
            out@.len() == i,
            forall|j: int|
                0 <= j < i ==> #[trigger] block_tree_of(out@[j], blocks@, rs[j], blocks@.len()),
        decreases rs.len() - i,
    {
        let t = build_block_tree(&blocks, copy_block(&roots[i]), blocks.len());
        out.push(t);
        i = i + 1;
    }
    proof {
        lemma_block_forest_of(out@, blocks@, rs, blocks@.len());
    }
    out
}

} // verus!

verus! {

/// Whether the orders of the blocks do not decrease along the sequence.
pub open spec fn block_orders_sorted(s: Seq<Block>) -> bool {
    forall|i: int, j: int| 0 <= i < j < s.len() ==> s[i].order <= s[j].order
}

proof fn lemma_insert_block_facts(s: Seq<Block>, b: Block)
    ensures
        block_orders_sorted(s) ==> block_orders_sorted(insert_block_by_order(s, b)),
        insert_block_by_order(s, b).to_multiset() == s.to_multiset().insert(b),
        insert_block_by_order(s, b).len() == s.len() + 1,
        forall|i: int|
            0 <= i < insert_block_by_order(s, b).len() ==> (#[trigger] insert_block_by_order(s, b)[i]
                == b || s.contains(insert_block_by_order(s, b)[i])),
    decreases s.len(),
{
    broadcast use vstd::seq_lib::to_multiset_build;

    if s.len() == 0 {
        assert(insert_block_by_order(s, b) =~= s.push(b));
    } else if s.last().order <= b.order {
    } else {
        let d = s.drop_last();
        lemma_insert_block_facts(d, b);
        let r = insert_block_by_order(d, b);
        assert(s =~= d.push(s.last()));
        assert(r.push(s.last()).to_multiset() =~= r.to_multiset().insert(s.last()));
        assert(s.to_multiset() =~= d.to_multiset().insert(s.last()));
        assert(r.push(s.last()).to_multiset() =~= s.to_multiset().insert(b));
        assert forall|i: int|
            0 <= i < r.push(s.last()).len() implies (#[trigger] r.push(s.last())[i] == b
            || s.contains(r.push(s.last())[i])) by {
            if i < r.len() {
                if r[i] != b {
                    let j = choose|j: int| 0 <= j < d.len() && d[j] == r[i];
                    assert(s[j] == d[j]);
                }
            } else {
                assert(s[s.len() - 1] == s.last());
            }
        }
        if block_orders_sorted(s) {
            assert(block_orders_sorted(d));
            assert forall|i: int, j: int|
                0 <= i < j < r.push(s.last()).len() implies r.push(s.last())[i].order <= r.push(
                s.last(),
            )[j].order by {
                if j == r.len() {
                    if r[i] == b {
                    } else {
                        let k = choose|k: int| 0 <= k < d.len() && d[k] == r[i];
                        assert(s[k] == d[k]);
                    }
                }
            }
        }
    }
}

/// Sorting blocks by order gives blocks whose orders do not decrease, and
/// keeps every block, as often as it occurs.
pub proof fn law_blocks_by_order_sorts(s: Seq<Block>)
    ensures
        block_orders_sorted(blocks_by_order(s)),
        blocks_by_order(s).to_multiset() == s.to_multiset(),
    decreases s.len(),
{
    broadcast use vstd::seq_lib::to_multiset_build;

    if s.len() > 0 {
        law_blocks_by_order_sorts(s.drop_last());
        lemma_insert_block_facts(blocks_by_order(s.drop_last()), s.last());
        assert(s =~= s.drop_last().push(s.last()));
    }
}

/// In a built hierarchy, the children of a block are its child blocks in
/// the page, each once, sorted by order; the roots likewise are the root
/// blocks of the page.
pub proof fn law_hierarchy_levels(t: BlockHierarchy, bs: Seq<Block>, b: Block, fuel: nat)
    requires
        block_tree_of(t, bs, b, fuel),
        fuel > 0,
    ensures
        t.children@.map_values(|c: BlockHierarchy| c.block).to_multiset() == children_among(
            bs,
            b.id,
        ).to_multiset(),
        block_orders_sorted(t.children@.map_values(|c: BlockHierarchy| c.block)),
        forall|i: int| 0 <= i < t.children@.len() ==> (#[trigger] t.children@[i]).block.parent_id == Some(b.id),
{
    let ks = blocks_by_order(children_among(bs, b.id));
    lemma_block_forest_of(t.children@, bs, ks, (fuel - 1) as nat);
    let cb = t.children@.map_values(|c: BlockHierarchy| c.block);
    assert forall|i: int| 0 <= i < cb.len() implies cb[i] == ks[i] by {
        assert(block_tree_of(t.children@[i], bs, ks[i], (fuel - 1) as nat));
    }
    assert(cb =~= ks);
    law_blocks_by_order_sorts(children_among(bs, b.id));
    lemma_children_among_parent(children_among(bs, b.id), bs, b.id);
    assert forall|i: int| 0 <= i < t.children@.len() implies (#[trigger] t.children@[i]).block.parent_id == Some(b.id) by {
        assert(cb[i] == t.children@[i].block);
        vstd::seq_lib::to_multiset_contains(ks, ks[i]);
        vstd::seq_lib::to_multiset_contains(children_among(bs, b.id), ks[i]);
        assert(ks.contains(ks[i]));
        assert(children_among(bs, b.id).contains(ks[i]));
    }
}

proof fn lemma_children_among_parent(c: Seq<Block>, bs: Seq<Block>, id: i32)
    requires
        c == children_among(bs, id),
    ensures
        forall|x: Block| c.contains(x) ==> x.parent_id == Some(id),
    decreases bs.len(),
{
    if bs.len() > 0 {
        lemma_children_among_parent(children_among(bs.drop_last(), id), bs.drop_last(), id);
        assert forall|x: Block| c.contains(x) implies x.parent_id == Some(id) by {
            let k = choose|k: int| 0 <= k < c.len() && c[k] == x;
            let p = children_among(bs.drop_last(), id);
            if k < p.len() {
                assert(p.contains(x));
            }
        }
    }
}

} // verus!
