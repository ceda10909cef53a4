//! Pop-up menus: a tree of labelled items, some of which open sub-menus, with the hover
//! and open state that pointer movement leaves behind.

use vstd::prelude::*;

verus! {

/// One entry of a menu: a label, possibly a sub-menu that it opens, whether the pointer is
/// on it, and when (in milliseconds) the pointer last touched it or its sub-menu.
#[derive(Debug)]
pub struct MenuItem {
    pub label: String,
    pub sub_menu: Option<Menu>,
    pub hover: bool,
    pub hover_time: u64,
}

/// A list of menu items, and whether it is shown open.
#[derive(Debug)]
pub struct Menu {
    pub items: Vec<MenuItem>,
    pub open: bool,
}

/// What handling an event did to a menu.
pub enum MenuUpdate {
    Unchanged,
    NeedRender,
    Select(Vec<String>),
}

/// The number of rows that a menu occupies when every sub-menu is shown: at least its own
/// items, and for the item at row `idx` with a sub-menu, `idx` plus the rows of that
/// sub-menu.
pub open spec fn menu_length(m: Menu) -> nat
    decreases m, 1nat, 0nat,
{
    length_upto(m, m.items@.len())
}

/// `menu_length` over the first `k` items only.
pub open spec fn length_upto(m: Menu, k: nat) -> nat
    decreases m, 0nat, k,
{
    if k == 0 || k > m.items@.len() {
        m.items@.len()
    } else {
        let acc = length_upto(m, (k - 1) as nat);
        match m.items@[k - 1].sub_menu {
            Some(child) => {
                let here = ((k - 1) + menu_length(child)) as nat;
                if acc >= here {
                    acc
                } else {
                    here
                }
            },
            None => acc,
        }
    }
}

/// The number of columns that a menu occupies when every sub-menu is shown: one for its
/// own items, plus the widest of its sub-menus.
pub open spec fn menu_width(m: Menu) -> nat
    decreases m, 1nat, 0nat,
{
    width_upto(m, m.items@.len())
}

/// `menu_width` over the first `k` items only.
pub open spec fn width_upto(m: Menu, k: nat) -> nat
    decreases m, 0nat, k,
{
    if k == 0 || k > m.items@.len() {
        1
    } else {
        let acc = width_upto(m, (k - 1) as nat);
        match m.items@[k - 1].sub_menu {
            Some(child) => {
                let here = 1 + menu_width(child);
                if acc >= here {
                    acc
                } else {
                    here
                }
            },
            None => acc,
        }
    }
}

/// Whether any item of the menu, or of its sub-menus at any depth, is hovered.
pub open spec fn menu_hovered(m: Menu) -> bool
    decreases m, 1nat, 0nat,
{
    hovered_upto(m, m.items@.len())
}

/// `menu_hovered` over the first `k` items only.
pub open spec fn hovered_upto(m: Menu, k: nat) -> bool
    decreases m, 0nat, k,
{
    if k == 0 || k > m.items@.len() {
        false
    } else {
        hovered_upto(m, (k - 1) as nat) || m.items@[k - 1].hover || match m.items@[k - 1].sub_menu {
            Some(child) => menu_hovered(child),
            None => false,
        }
    }
}

/// Walks the open, hovered part of a menu tree, from item `i` on, collecting the labels of
/// the hovered item and of the sub-menus that lead to it. The flag is false when the walk
/// stops on the label of an item that opens a sub-menu.
pub open spec fn hover_path_from(m: Menu, i: nat, path: Seq<String>) -> (bool, Seq<String>)
    decreases m, 0nat, m.items@.len() - i,
{
    if i >= m.items@.len() {
        (true, path)
    } else {
        let item = m.items@[i as int];
        match item.sub_menu {
            Some(sub) => {
                if item.hover {
                    (false, path)
                } else if sub.open && menu_hovered(sub) {
                    let (ok, inner) = hover_path(sub, path.push(item.label));
                    if !ok {
                        (false, inner)
                    } else {
                        hover_path_from(m, i + 1, inner)
                    }
                } else {
                    hover_path_from(m, i + 1, path)
                }
            },
            None => {
                if item.hover {
                    hover_path_from(m, i + 1, path.push(item.label))
                } else {
                    hover_path_from(m, i + 1, path)
                }
            },
        }
    }
}

/// `hover_path_from` over the whole menu.
pub open spec fn hover_path(m: Menu, path: Seq<String>) -> (bool, Seq<String>)
    decreases m, 1nat, 0nat,
{
    hover_path_from(m, 0, path)
}

/// What the pointer selects in a menu: `None` if nothing is hit, the labels leading to
/// the hovered item, or an empty path when the pointer rests on the label of an item
/// that opens a sub-menu.
pub open spec fn menu_selection(m: Menu) -> Option<Seq<String>> {
    let (ok, path) = hover_path(m, Seq::empty());
    if ok {
        if path.len() == 0 {
            None
        } else {
            Some(path)
        }
    } else {
        Some(Seq::empty())
    }
}

/// Two items look the same: equal labels and hover states, and sub-menus that are open or
/// closed alike and whose items look the same, all the way down. When the pointer last
/// touched an item does not count.
pub open spec fn same_item(a: MenuItem, b: MenuItem) -> bool
    decreases a, 1nat, 0nat,
{
    &&& a.label@ == b.label@
    &&& a.hover == b.hover
    &&& match a.sub_menu {
        Some(x) => match b.sub_menu {
            Some(y) => x.open == y.open && x.items@.len() == y.items@.len() && same_items_upto(
                x.items@,
                y.items@,
                x.items@.len(),
            ),
            None => false,
        },
        None => b.sub_menu is None,
    }
}

/// The first `k` items of `s` and of `t` look the same, position by position.
pub open spec fn same_items_upto(s: Seq<MenuItem>, t: Seq<MenuItem>, k: nat) -> bool
    decreases s, 0nat, k,
{
    if k == 0 || k > s.len() {
        true
    } else {
        same_items_upto(s, t, (k - 1) as nat) && same_item(s[k - 1], t[k - 1])
    }
}

/// Two sequences of items look the same, item by item.
pub open spec fn same_items(s: Seq<MenuItem>, t: Seq<MenuItem>) -> bool {
    s.len() == t.len() && same_items_upto(s, t, s.len())
}

/// Two menus look the same: open or closed alike, with items that look the same.
pub open spec fn same_menu(a: Menu, b: Menu) -> bool {
    a.open == b.open && same_items(a.items@, b.items@)
}

proof fn lemma_same_items_prefix(s: Seq<MenuItem>, t: Seq<MenuItem>, j: nat, k: nat)
    requires
        j <= k <= s.len(),
        same_items_upto(s, t, k),
    ensures
        same_items_upto(s, t, j),
    decreases k - j,
{
    if j < k {
        lemma_same_items_prefix(s, t, j, (k - 1) as nat);
    }
}

proof fn lemma_same_items_extend(s: Seq<MenuItem>, t: Seq<MenuItem>, u: Seq<MenuItem>, k: nat)
    requires
        k <= s.len(),
        k <= u.len(),
        forall|j: int| 0 <= j < k ==> #[trigger] s[j] == u[j],
        same_items_upto(s, t, k),
    ensures
        same_items_upto(u, t, k),
    decreases k,
{
    if k > 0 {
        lemma_same_items_extend(s, t, u, (k - 1) as nat);
        assert(s[k - 1] == u[k - 1]);
    }
}

/// Looking the same is symmetric and transitive.
proof fn lemma_same_item_laws(a: MenuItem, b: MenuItem, c: MenuItem)
    ensures
        same_item(a, b) ==> same_item(b, a),
        same_item(a, b) && same_item(b, c) ==> same_item(a, c),
    decreases a, 1nat, 0nat,
{
    match a.sub_menu {
        Some(x) => match b.sub_menu {
            Some(y) => if x.items@.len() == y.items@.len() {
                let n = x.items@.len();
                match c.sub_menu {
                    Some(z) => {
                        lemma_same_items_laws(x.items@, y.items@, z.items@, n);
                    },
                    None => {
                        lemma_same_items_laws(x.items@, y.items@, y.items@, n);
                    },
                }
            },
            None => {},
        },
        None => {},
    }
}

proof fn lemma_same_items_laws(s: Seq<MenuItem>, t: Seq<MenuItem>, u: Seq<MenuItem>, k: nat)
    requires
        k <= s.len(),
        s.len() == t.len(),
    ensures
        same_items_upto(s, t, k) ==> same_items_upto(t, s, k),
        same_items_upto(s, t, k) && t.len() == u.len() && same_items_upto(t, u, k)
            ==> same_items_upto(s, u, k),
    decreases s, 0nat, k,
{
    if k > 0 {
        lemma_same_items_laws(s, t, u, (k - 1) as nat);
        if k <= u.len() {
            lemma_same_item_laws(s[k - 1], t[k - 1], u[k - 1]);
        } else {
            lemma_same_item_laws(s[k - 1], t[k - 1], t[k - 1]);
        }
    }
}

/// Looking the same is symmetric and transitive, for menus.
proof fn lemma_same_menu_laws(a: Menu, b: Menu, c: Menu)
    ensures
        same_menu(a, b) ==> same_menu(b, a),
        same_menu(a, b) && same_menu(b, c) ==> same_menu(a, c),
{
    if a.items@.len() == b.items@.len() {
        lemma_same_items_laws(a.items@, b.items@, c.items@, a.items@.len());
    }
}

proof fn lemma_hovered_upto_monotone(m: Menu, j: nat, k: nat)
    requires
        j <= k <= m.items@.len(),
        hovered_upto(m, j),
    ensures
        hovered_upto(m, k),
    decreases k - j,
{
    if j < k {
        lemma_hovered_upto_monotone(m, j, (k - 1) as nat);
    }
}

proof fn lemma_length_upto_monotone(m: Menu, j: nat, k: nat)
    requires
        j <= k <= m.items@.len(),
    ensures
        length_upto(m, j) <= length_upto(m, k),
    decreases k - j,
{
    if j < k {
        lemma_length_upto_monotone(m, j, (k - 1) as nat);
    }
}

proof fn lemma_width_upto_monotone(m: Menu, j: nat, k: nat)
    requires
        j <= k <= m.items@.len(),
    ensures
        width_upto(m, j) <= width_upto(m, k),
    decreases k - j,
{
    if j < k {
        lemma_width_upto_monotone(m, j, (k - 1) as nat);
    }
}

fn copy_items(items: &Vec<MenuItem>) -> (r: Vec<MenuItem>)
    ensures
        same_items(r@, items@),
    decreases items, 0nat,
{
    let mut r: Vec<MenuItem> = Vec::new();
    let mut i: usize = 0;
    while i < items.len()
        invariant
            i <= items@.len(),
            r@.len() == i,
            same_items_upto(r@, items@, i as nat),
        decreases items@.len() - i,
    {
        assert(decreases_to!(items => items@[i as int]));
        let c = copy_item(&items[i]);
        let ghost before = r@;
        r.push(c);
        proof {
            lemma_same_items_extend(before, items@, r@, i as nat);
        }
        i = i + 1;
    }
    r
}

fn copy_item(item: &MenuItem) -> (r: MenuItem)
    ensures
        same_item(r, *item),
        r.hover_time == item.hover_time,
    decreases item, 1nat,
{
    let sub_menu = match &item.sub_menu {
        Some(m) => {
            assert(decreases_to!(item => m.items));
            Some(Menu { items: copy_items(&m.items), open: m.open })
        },
        None => None,
    };
    MenuItem { label: item.label.clone(), sub_menu, hover: item.hover, hover_time: item.hover_time }
}

impl Clone for MenuItem {
    fn clone(&self) -> (r: MenuItem)
        ensures
            same_item(r, *self),
            r.hover_time == self.hover_time,
    {
        copy_item(self)
    }
}

impl Clone for Menu {
    fn clone(&self) -> (r: Menu)
        ensures
            same_menu(r, *self),
    {
        Menu { items: copy_items(&self.items), open: self.open }
    }
}

fn items_equal(s: &Vec<MenuItem>, t: &Vec<MenuItem>) -> (r: bool)
    ensures
        r == same_items(s@, t@),
    decreases s, 0nat,
{
    if s.len() != t.len() {
        return false;
    }
    let mut i: usize = 0;
    while i < s.len()
        invariant
            i <= s@.len(),
            s@.len() == t@.len(),
            same_items_upto(s@, t@, i as nat),
        decreases s@.len() - i,
    {
        assert(decreases_to!(s => s@[i as int]));
        if !item_equal(&s[i], &t[i]) {
            proof {
                if same_items_upto(s@, t@, s@.len()) {
                    lemma_same_items_prefix(s@, t@, (i + 1) as nat, s@.len());
                }
            }
            return false;
        }
        i = i + 1;
    }
    true
}

fn item_equal(a: &MenuItem, b: &MenuItem) -> (r: bool)
    ensures
        r == same_item(*a, *b),
    decreases a, 1nat,
{
    if a.label != b.label || a.hover != b.hover {
        return false;
    }
    match &a.sub_menu {
        Some(x) => match &b.sub_menu {
            Some(y) => {
                assert(decreases_to!(a => x.items));
                x.open == y.open && items_equal(&x.items, &y.items)
            },
            None => false,
        },
        None => b.sub_menu.is_none(),
    }
}

impl PartialEq for MenuItem {
    fn eq(&self, other: &MenuItem) -> (r: bool) {
        item_equal(self, other)
    }
}

impl vstd::std_specs::cmp::PartialEqSpecImpl for MenuItem {
    open spec fn obeys_eq_spec() -> bool {
        true
    }

    open spec fn eq_spec(&self, other: &MenuItem) -> bool {
        same_item(*self, *other)
    }
}

impl PartialEq for Menu {
    fn eq(&self, other: &Menu) -> (r: bool) {
        self.open == other.open && items_equal(&self.items, &other.items)
    }
}

impl vstd::std_specs::cmp::PartialEqSpecImpl for Menu {
    open spec fn obeys_eq_spec() -> bool {
        true
    }

    open spec fn eq_spec(&self, other: &Menu) -> bool {
        same_menu(*self, *other)
    }
}

impl MenuItem {
    fn new(label: String, sub_menu: Option<Menu>) -> (r: MenuItem)
        ensures
            r.label == label,
            r.sub_menu == sub_menu,
            !r.hover,
            r.hover_time == 0,
    {
        MenuItem { label, sub_menu, hover: false, hover_time: 0 }
    }

    /// The item's label.
    pub fn label(&self) -> (r: &str)
        ensures
            r@ == self.label@,
    {
        self.label.as_str()
    }

    /// The sub-menu that the item opens, if any, to change in place.
    pub fn sub_menu_mut(&mut self) -> (r: Option<&mut Menu>)
        ensures
            match old(self).sub_menu {
                Some(m) => {
                    &&& r is Some
                    &&& *r->Some_0 == m
                    &&& final(self).sub_menu == Some(*final(r->Some_0))
                },
                None => r is None && final(self).sub_menu is None,
            },
            final(self).label == old(self).label,
            final(self).hover == old(self).hover,
            final(self).hover_time == old(self).hover_time,
    {
        self.sub_menu.as_mut()
    }

    /// The sub-menu that the item opens, if any.
    pub fn sub_menu(&self) -> (r: Option<&Menu>)
        ensures
            match self.sub_menu {
                Some(m) => r == Some(&m),
                None => r is None,
            },
    {
        self.sub_menu.as_ref()
    }
}

/// Whether item `it` is hovered, or some item of its sub-menu is, at any depth.
pub open spec fn item_hovered(it: MenuItem) -> bool {
    it.hover || match it.sub_menu {
        Some(m) => menu_hovered(m),
        None => false,
    }
}

/// Whether some item of `s` is hovered, or has a hovered item in its sub-menu.
pub open spec fn items_hovered(s: Seq<MenuItem>) -> bool {
    exists|k: int| 0 <= k < s.len() && #[trigger] item_hovered(s[k])
}

proof fn lemma_hovered_upto_items(m: Menu, k: nat)
    requires
        k <= m.items@.len(),
    ensures
        hovered_upto(m, k) <==> exists|j: int| 0 <= j < k && #[trigger] item_hovered(m.items@[j]),
    decreases k,
{
    if k > 0 {
        lemma_hovered_upto_items(m, (k - 1) as nat);
        if item_hovered(m.items@[k - 1]) {
            assert(item_hovered(m.items@[k - 1]));
        }
        if exists|j: int| 0 <= j < k && #[trigger] item_hovered(m.items@[j]) {
            let j = choose|j: int| 0 <= j < k && #[trigger] item_hovered(m.items@[j]);
            if j < k - 1 {
                assert(exists|j2: int| 0 <= j2 < k - 1 && #[trigger] item_hovered(m.items@[j2]));
            }
        }
    }
}

/// A menu is hovered exactly when one of its items is, or has a hovered item in its
/// sub-menu.
proof fn lemma_menu_hovered_items(m: Menu)
    ensures
        menu_hovered(m) == items_hovered(m.items@),
{
    lemma_hovered_upto_items(m, m.items@.len());
}

/// Items that look the same are hovered alike, sub-menus included.
proof fn lemma_same_item_hovered(a: MenuItem, b: MenuItem)
    requires
        same_item(a, b),
    ensures
        item_hovered(a) == item_hovered(b),
    decreases a, 1nat, 0nat,
{
    match a.sub_menu {
        Some(x) => {
            let y = b.sub_menu->Some_0;
            lemma_same_items_hovered(x.items@, y.items@, x.items@.len());
            lemma_menu_hovered_items(x);
            lemma_menu_hovered_items(y);
        },
        None => {},
    }
}

proof fn lemma_same_items_hovered(s: Seq<MenuItem>, t: Seq<MenuItem>, k: nat)
    requires
        k <= s.len(),
        s.len() == t.len(),
        same_items_upto(s, t, k),
    ensures
        (exists|j: int| 0 <= j < k && #[trigger] item_hovered(s[j])) == (exists|j: int|
            0 <= j < k && #[trigger] item_hovered(t[j])),
    decreases s, 0nat, k,
{
    if k > 0 {
        lemma_same_items_hovered(s, t, (k - 1) as nat);
        lemma_same_item_hovered(s[k - 1], t[k - 1]);
        if exists|j: int| 0 <= j < k && #[trigger] item_hovered(s[j]) {
            let j = choose|j: int| 0 <= j < k && #[trigger] item_hovered(s[j]);
            if j < k - 1 {
                assert(exists|j2: int| 0 <= j2 < k - 1 && #[trigger] item_hovered(s[j2]));
            } else {
                assert(item_hovered(t[j]));
            }
        }
        if exists|j: int| 0 <= j < k && #[trigger] item_hovered(t[j]) {
            let j = choose|j: int| 0 <= j < k && #[trigger] item_hovered(t[j]);
            if j < k - 1 {
                assert(exists|j2: int| 0 <= j2 < k - 1 && #[trigger] item_hovered(t[j2]));
            } else {
                assert(item_hovered(s[j]));
            }
        }
    }
}

proof fn lemma_copy_hovered(r: Menu, items: Seq<MenuItem>)
    requires
        same_items(r.items@, items),
    ensures
        menu_hovered(r) == items_hovered(items),
{
    lemma_same_items_hovered(r.items@, items, items.len());
    lemma_menu_hovered_items(r);
}

/// An item with the given label and no sub-menu.
pub fn item(label: &str) -> (r: MenuItem)
    ensures
        r.label@ == label@,
        r.sub_menu is None,
        !r.hover,
        !item_hovered(r),
{
    MenuItem::new(label.to_owned(), None)
}

/// An item with the given label that opens a closed sub-menu of the given items.
pub fn sub_menu(label: &str, items: &[MenuItem]) -> (r: MenuItem)
    ensures
        r.label@ == label@,
        r.sub_menu is Some,
        same_items(r.sub_menu->Some_0.items@, items@),
        !r.sub_menu->Some_0.open,
        !r.hover,
        item_hovered(r) == items_hovered(items@),
{
    let m = Menu::new(items);
    MenuItem::new(label.to_owned(), Some(m))
}

impl Menu {
    /// A closed menu of the given items.
    pub fn new(items: &[MenuItem]) -> (r: Menu)
        ensures
            same_items(r.items@, items@),
            forall|k: int| 0 <= k < items@.len() ==> #[trigger] r.items@[k].hover_time == items@[k].hover_time,
            !r.open,
            menu_hovered(r) == items_hovered(items@),
    {
        let mut v: Vec<MenuItem> = Vec::new();
        let mut i: usize = 0;
        while i < items.len()
            invariant
                i <= items@.len(),
                v@.len() == i,
                same_items_upto(v@, items@, i as nat),
                forall|k: int| 0 <= k < i ==> #[trigger] v@[k].hover_time == items@[k].hover_time,
            decreases items@.len() - i,
        {
            let c = copy_item(&items[i]);
            let ghost before = v@;
            v.push(c);
            proof {
                lemma_same_items_extend(before, items@, v@, i as nat);
            }
            i = i + 1;
        }
        let r = Menu { items: v, open: false };
        proof {
            lemma_copy_hovered(r, items@);
        }
        r
    }

    /// The number of rows the menu occupies when every sub-menu is shown.
    pub fn length(&self) -> (r: usize)
        requires
            menu_length(*self) <= usize::MAX,
        ensures
            r == menu_length(*self),
        decreases self,
    {
        let mut acc: usize = self.items.len();
        let mut i: usize = 0;
        while i < self.items.len()
            invariant
                i <= self.items@.len(),
                acc == length_upto(*self, i as nat),
                menu_length(*self) <= usize::MAX,
            decreases self.items@.len() - i,
        {
            proof {
                lemma_length_upto_monotone(*self, (i + 1) as nat, self.items@.len());
            }
            match &self.items[i].sub_menu {
                Some(child) => {
                    assert(decreases_to!(self => child));
                    let here = i + child.length();
                    if here > acc {
                        acc = here;
                    }
                },
                None => {},
            }
            i = i + 1;
        }
        acc
    }

    /// The number of columns the menu occupies when every sub-menu is shown.
    pub fn width(&self) -> (r: usize)
        requires
            menu_width(*self) <= usize::MAX,
        ensures
            r == menu_width(*self),
        decreases self,
    {
        let mut acc: usize = 1;
        let mut i: usize = 0;
        while i < self.items.len()
            invariant
                i <= self.items@.len(),
                acc == width_upto(*self, i as nat),
                menu_width(*self) <= usize::MAX,
            decreases self.items@.len() - i,
        {
            proof {
                lemma_width_upto_monotone(*self, (i + 1) as nat, self.items@.len());
            }
            match &self.items[i].sub_menu {
                Some(child) => {
                    assert(decreases_to!(self => child));
                    let here = 1 + child.width();
                    if here > acc {
                        acc = here;
                    }
                },
                None => {},
            }
            i = i + 1;
        }
        acc
    }

    /// The number of rows the menu occupies when every sub-menu is shown, or `None` if
    /// that number does not fit in a `usize`.
    pub fn checked_length(&self) -> (r: Option<usize>)
        ensures
            match r {
                Some(n) => n == menu_length(*self),
                None => menu_length(*self) > usize::MAX,
            },
        decreases self,
    {
        let mut acc: usize = self.items.len();
        let mut i: usize = 0;
        while i < self.items.len()
            invariant
                i <= self.items@.len(),
                acc == length_upto(*self, i as nat),
            decreases self.items@.len() - i,
        {
            proof {
                lemma_length_upto_monotone(*self, (i + 1) as nat, self.items@.len());
            }
            match &self.items[i].sub_menu {
                Some(child) => {
                    assert(decreases_to!(self => child));
                    match child.checked_length() {
                        Some(n) => match i.checked_add(n) {
                            Some(here) => if here > acc {
                                acc = here;
                            },
                            None => {
                                return None;
                            },
                        },
                        None => {
                            return None;
                        },
                    }
                },
                None => {},
            }
            i = i + 1;
        }
        Some(acc)
    }

    /// The number of columns the menu occupies when every sub-menu is shown, or `None` if
    /// that number does not fit in a `usize`.
    pub fn checked_width(&self) -> (r: Option<usize>)
        ensures
            match r {
                Some(n) => n == menu_width(*self),
                None => menu_width(*self) > usize::MAX,
            },
        decreases self,
    {
        let mut acc: usize = 1;
        let mut i: usize = 0;
        while i < self.items.len()
            invariant
                i <= self.items@.len(),
                acc == width_upto(*self, i as nat),
            decreases self.items@.len() - i,
        {
            proof {
                lemma_width_upto_monotone(*self, (i + 1) as nat, self.items@.len());
            }
            match &self.items[i].sub_menu {
                Some(child) => {
                    assert(decreases_to!(self => child));
                    match child.checked_width() {
                        Some(n) => match n.checked_add(1) {
                            Some(here) => if here > acc {
                                acc = here;
                            },
                            None => {
                                return None;
                            },
                        },
                        None => {
                            return None;
                        },
                    }
                },
                None => {},
            }
            i = i + 1;
        }
        Some(acc)
    }

    /// Whether any item, of this menu or of its sub-menus at any depth, is hovered.
    pub fn any_children_hovered(&self) -> (r: bool)
        ensures
            r == menu_hovered(*self),
        decreases self,
    {
        let mut i: usize = 0;
        while i < self.items.len()
            invariant
                i <= self.items@.len(),
                !hovered_upto(*self, i as nat),
            decreases self.items@.len() - i,
        {
            let item = &self.items[i];
            proof {
                if hovered_upto(*self, (i + 1) as nat) {
                    lemma_hovered_upto_monotone(*self, (i + 1) as nat, self.items@.len());
                }
            }
            if item.hover {
                return true;
            }
            match &item.sub_menu {
                Some(child) => {
                    assert(decreases_to!(self => child));
                    if child.any_children_hovered() {
                        return true;
                    }
                },
                None => {},
            }
            i = i + 1;
        }
        false
    }
}


fn hover_path_exec(menu: &Menu, path: &mut Vec<String>) -> (ok: bool)
    ensures
        (ok, final(path)@) == hover_path(*menu, old(path)@),
    decreases menu, 1nat,
{
    let ghost start = path@;
    let mut i: usize = 0;
    while i < menu.items.len()
        invariant
            i <= menu.items@.len(),
            start == old(path)@,
            hover_path(*menu, start) == hover_path_from(*menu, i as nat, path@),
        decreases menu.items@.len() - i,
    {
        let item = &menu.items[i];
        let ghost before = path@;
        match &item.sub_menu {
            Some(sub) => {
                if item.hover {
                    assert(hover_path_from(*menu, i as nat, before) == (false, before));
                    return false;
                }
                if sub.open && sub.any_children_hovered() {
                    path.push(item.label.clone());
                    assert(decreases_to!(menu => sub));
                    let ok = hover_path_exec(sub, path);
                    assert(hover_path(*sub, before.push(item.label)) == (ok, path@));
                    if !ok {
                        assert(hover_path_from(*menu, i as nat, before) == (false, path@));
                        return false;
                    }
                }
            },
            None => {
                if item.hover {
                    path.push(item.label.clone());
                }
            },
        }
        i = i + 1;
    }
    true
}

impl Menu {
    /// What the pointer selects: `None` if nothing is hit, else the labels leading to the
    /// hovered item (empty when the pointer rests on the label of an item that opens a
    /// sub-menu).
    pub fn selection(&self) -> (r: Option<Vec<String>>)
        ensures
            match menu_selection(*self) {
                None => r is None,
                Some(p) => r is Some && r->Some_0@ == p,
            },
    {
        let mut path: Vec<String> = Vec::new();
        if hover_path_exec(self, &mut path) {
            if path.len() == 0 {
                None
            } else {
                Some(path)
            }
        } else {
            Some(Vec::new())
        }
    }

    /// Whether the pointer hits the menu.
    pub fn intersect(&self) -> (r: bool)
        ensures
            r == menu_selection(*self) is Some,
    {
        self.selection().is_some()
    }

    /// What releasing the left button over the menu does: select the path to the hovered
    /// item, if there is one.
    pub fn release_update(&self) -> (r: MenuUpdate)
        ensures
            match menu_selection(*self) {
                Some(p) => if p.len() > 0 {
                    r is Select && r->Select_0@ == p
                } else {
                    r is Unchanged
                },
                None => r is Unchanged,
            },
    {
        match self.selection() {
            Some(path) => {
                if path.len() == 0 {
                    MenuUpdate::Unchanged
                } else {
                    MenuUpdate::Select(path)
                }
            },
            None => MenuUpdate::Unchanged,
        }
    }
}

/// Whether the point (x, y) lies strictly inside a menu item whose top-left corner is at
/// (px, py); an item is 128 wide and 32 high.
pub open spec fn item_hit(px: int, py: int, x: int, y: int) -> bool {
    px < x < px + 128 && py < y < py + 32
}

/// The top edge of item `i` of a menu whose first item's top edge is at `oy`: each item lies
/// 31 below the one before it, so that neighbours share a border line.
pub open spec fn item_top(oy: int, i: int) -> int {
    oy + 31 * i
}

/// The hover time that a pointer update at `time` gives item `it`, hovered now or not as
/// `hit` says: the update's time if the item opens a sub-menu and the pointer is on the item
/// or was anywhere in that sub-menu, else the item's previous hover time.
pub open spec fn touched_time(it: MenuItem, hit: bool, time: u64) -> u64 {
    match it.sub_menu {
        Some(sub) => if hit || menu_hovered(sub) {
            time
        } else {
            it.hover_time
        },
        None => it.hover_time,
    }
}

/// Item `b` is item `a` unhovered, with nothing else changed.
pub open spec fn cleared_item(a: MenuItem, b: MenuItem) -> bool {
    b.label == a.label && b.sub_menu == a.sub_menu && !b.hover && b.hover_time == a.hover_time
}

/// Menu `new` is menu `old` closed, with the hover flags of its own items cleared.
pub open spec fn cleared(old: Menu, new: Menu) -> bool {
    &&& !new.open
    &&& new.items@.len() == old.items@.len()
    &&& forall|j: int|
        0 <= j < old.items@.len() ==> #[trigger] cleared_item(old.items@[j], new.items@[j])
}

/// The position of the item that the pointer touched last among the first `k` items of `s`
/// (`k` at least one): the greatest hover time, the later item on a tie.
pub open spec fn latest_upto(s: Seq<MenuItem>, k: nat) -> int
    decreases k,
{
    if k <= 1 {
        0
    } else {
        let j = latest_upto(s, (k - 1) as nat);
        if s[k - 1].hover_time >= s[j].hover_time {
            k - 1
        } else {
            j
        }
    }
}

/// Whether, among the first `k` items of `m`, one opens a sub-menu in which some item, at
/// any depth, is hovered.
pub open spec fn sub_hovered_upto(m: Menu, k: nat) -> bool
    decreases k,
{
    if k == 0 || k > m.items@.len() {
        false
    } else {
        sub_hovered_upto(m, (k - 1) as nat) || match m.items@[k - 1].sub_menu {
            Some(c) => menu_hovered(c),
            None => false,
        }
    }
}

/// Whether `new` is what a pointer update leaves of menu `old`, shown with its first item's
/// top-left corner at (ox, oy): at `time` (in milliseconds), with the pointer at (x, y).
/// Every item keeps its label, is hovered if the pointer is on it, and gets its
/// `touched_time`. The item touched last opens its sub-menu, updated in the same way one
/// column to the right, if it was touched less than 250 ms ago or an item deeper in that
/// sub-menu is still hovered; every other sub-menu is `cleared`. Whether `old` itself is
/// open is not part of this.
pub open spec fn menu_updated(old: Menu, new: Menu, time: u64, x: int, y: int, ox: int, oy: int) -> bool
    decreases old, 2nat, 0nat,
{
    new.items@.len() == old.items@.len() && updated_upto(old, new.items@, time, x, y, ox, oy, old.items@.len())
}

/// `menu_updated` for the first `k` items.
pub open spec fn updated_upto(
    old: Menu,
    new: Seq<MenuItem>,
    time: u64,
    x: int,
    y: int,
    ox: int,
    oy: int,
    k: nat,
) -> bool
    decreases old, 1nat, k,
{
    if k == 0 || k > old.items@.len() {
        true
    } else {
        updated_upto(old, new, time, x, y, ox, oy, (k - 1) as nat) && item_updated(
            old,
            new,
            time,
            x,
            y,
            ox,
            oy,
            k - 1,
        )
    }
}

/// `menu_updated` for item `i`.
pub open spec fn item_updated(
    old: Menu,
    new: Seq<MenuItem>,
    time: u64,
    x: int,
    y: int,
    ox: int,
    oy: int,
    i: int,
) -> bool
    decreases old, 0nat, 0nat,
{
    if 0 <= i < old.items@.len() && i < new.len() {
        let a = old.items@[i];
        let b = new[i];
        let top = item_top(oy, i);
        let hit = item_hit(ox, top, x, y);
        &&& b.label == a.label
        &&& b.hover == hit
        &&& b.hover_time == touched_time(a, hit, time)
        &&& match a.sub_menu {
            Some(os) => match b.sub_menu {
                Some(ns) => if i == latest_upto(new, new.len()) && (time - b.hover_time
                    < 250 || sub_hovered_upto(os, os.items@.len())) {
                    ns.open && menu_updated(os, ns, time, x, y, ox + 127, top)
                } else {
                    cleared(os, ns)
                },
                None => false,
            },
            None => b.sub_menu is None,
        }
    } else {
        false
    }
}

/// The coordinates of a pointer update stay far from the limits of `i64`: the pointer, and
/// every item of the menu with all its sub-menus shown, lie within 2^50 of the origin.
pub open spec fn fits(m: Menu, x: int, y: int, ox: int, oy: int) -> bool {
    &&& -0x4_0000_0000_0000 <= x <= 0x4_0000_0000_0000
    &&& -0x4_0000_0000_0000 <= y <= 0x4_0000_0000_0000
    &&& -0x4_0000_0000_0000 <= ox && ox + 128 * menu_width(m) <= 0x4_0000_0000_0000
    &&& -0x4_0000_0000_0000 <= oy && oy + 32 * menu_length(m) <= 0x4_0000_0000_0000
}

/// What the first pass of an update leaves of item `a` at position `j`: hover and hover
/// time set, and its sub-menu cleared.
spec fn first_pass_item(a: MenuItem, b: MenuItem, time: u64, x: int, y: int, ox: int, oy: int, j: int) -> bool {
    let hit = item_hit(ox, item_top(oy, j), x, y);
    &&& b.label == a.label
    &&& b.hover == hit
    &&& b.hover_time == touched_time(a, hit, time)
    &&& match a.sub_menu {
        Some(os) => b.sub_menu is Some && cleared(os, b.sub_menu->Some_0),
        None => b.sub_menu is None,
    }
}

proof fn lemma_cleared_shape(os: Menu, c: Menu, k: nat)
    requires
        cleared(os, c),
        k <= os.items@.len(),
    ensures
        width_upto(c, k) == width_upto(os, k),
        length_upto(c, k) == length_upto(os, k),
        hovered_upto(c, k) == sub_hovered_upto(os, k),
    decreases k,
{
    if k > 0 {
        lemma_cleared_shape(os, c, (k - 1) as nat);
        assert(cleared_item(os.items@[k - 1], c.items@[k - 1]));
    }
}

proof fn lemma_cleared_update(
    os: Menu,
    c: Menu,
    n: Seq<MenuItem>,
    time: u64,
    x: int,
    y: int,
    ox: int,
    oy: int,
    k: nat,
)
    requires
        cleared(os, c),
        k <= os.items@.len(),
    ensures
        updated_upto(c, n, time, x, y, ox, oy, k) == updated_upto(os, n, time, x, y, ox, oy, k),
    decreases k,
{
    if k > 0 {
        lemma_cleared_update(os, c, n, time, x, y, ox, oy, (k - 1) as nat);
        let i = k - 1;
        let a = os.items@[i];
        let a2 = c.items@[i];
        assert(cleared_item(a, a2));
        assert(touched_time(a, true, time) == touched_time(a2, true, time));
        assert(touched_time(a, false, time) == touched_time(a2, false, time));
        assert(item_updated(c, n, time, x, y, ox, oy, i) == item_updated(os, n, time, x, y, ox, oy, i));
    }
}

proof fn lemma_latest_same_times(s: Seq<MenuItem>, t: Seq<MenuItem>, k: nat)
    requires
        k <= s.len(),
        k <= t.len(),
        forall|j: int| 0 <= j < k ==> #[trigger] s[j].hover_time == t[j].hover_time,
    ensures
        latest_upto(s, k) == latest_upto(t, k),
        k >= 1 ==> 0 <= latest_upto(s, k) < k,
    decreases k,
{
    if k > 1 {
        lemma_latest_same_times(s, t, (k - 1) as nat);
        let j = latest_upto(s, (k - 1) as nat);
        assert(s[j].hover_time == t[j].hover_time);
        assert(s[k - 1].hover_time == t[k - 1].hover_time);
    }
}

proof fn lemma_updated_all(
    old: Menu,
    new: Seq<MenuItem>,
    time: u64,
    x: int,
    y: int,
    ox: int,
    oy: int,
    k: nat,
)
    requires
        k <= old.items@.len(),
        forall|j: int| 0 <= j < k ==> #[trigger] item_updated(old, new, time, x, y, ox, oy, j),
    ensures
        updated_upto(old, new, time, x, y, ox, oy, k),
    decreases k,
{
    if k > 0 {
        lemma_updated_all(old, new, time, x, y, ox, oy, (k - 1) as nat);
        assert(item_updated(old, new, time, x, y, ox, oy, k - 1));
    }
}

/// A sub-menu's dimensions are bounded by those of the menu whose item `k` opens it.
proof fn lemma_sub_dimensions(m: Menu, k: int)
    requires
        0 <= k < m.items@.len(),
        m.items@[k].sub_menu is Some,
    ensures
        1 + menu_width(m.items@[k].sub_menu->Some_0) <= menu_width(m),
        k + menu_length(m.items@[k].sub_menu->Some_0) <= menu_length(m),
{
    lemma_width_upto_monotone(m, (k + 1) as nat, m.items@.len());
    lemma_length_upto_monotone(m, (k + 1) as nat, m.items@.len());
}

fn clear_menu(m: &mut Menu)
    ensures
        cleared(*old(m), *final(m)),
{
    let ghost m0 = *m;
    m.open = false;
    let mut j: usize = 0;
    while j < m.items.len()
        invariant
            j <= m.items@.len(),
            m.items@.len() == m0.items@.len(),
            !m.open,
            forall|i: int| 0 <= i < j ==> #[trigger] cleared_item(m0.items@[i], m.items@[i]),
            forall|i: int| j <= i < m.items@.len() ==> #[trigger] m.items@[i] == m0.items@[i],
        decreases m.items@.len() - j,
    {
        m.items[j].hover = false;
        j = j + 1;
    }
}

fn latest_item(items: &Vec<MenuItem>) -> (k: usize)
    requires
        items@.len() > 0,
    ensures
        k == latest_upto(items@, items@.len()),
        k < items@.len(),
{
    let mut best: usize = 0;
    let mut j: usize = 1;
    while j < items.len()
        invariant
            1 <= j <= items@.len(),
            best < j,
            best == latest_upto(items@, j as nat),
        decreases items@.len() - j,
    {
        if items[j].hover_time >= items[best].hover_time {
            best = j;
        }
        j = j + 1;
    }
    best
}

fn update_hover(menu: &mut Menu, time: u64, x: i64, y: i64, ox: i64, oy: i64)
    requires
        fits(*old(menu), x as int, y as int, ox as int, oy as int),
    ensures
        final(menu).open == old(menu).open,
        menu_updated(*old(menu), *final(menu), time, x as int, y as int, ox as int, oy as int),
    decreases menu_width(*old(menu)),
{
    let ghost m0 = *menu;
    let n = menu.items.len();
    proof {
        lemma_length_upto_monotone(m0, 0, n as nat);
    }
    let mut i: usize = 0;
    while i < n
        invariant
            n == m0.items@.len(),
            n <= menu_length(m0),
            menu.items@.len() == n,
            menu.open == m0.open,
            i <= n,
            fits(m0, x as int, y as int, ox as int, oy as int),
            forall|j: int|
                0 <= j < i ==> #[trigger] first_pass_item(
                    m0.items@[j],
                    menu.items@[j],
                    time,
                    x as int,
                    y as int,
                    ox as int,
                    oy as int,
                    j,
                ),
            forall|j: int| i <= j < n ==> #[trigger] menu.items@[j] == m0.items@[j],
        decreases n - i,
    {
        let top: i64 = oy + 31 * (i as i64);
        let hit = ox < x && x < ox + 128 && top < y && y < top + 32;
        let ghost before = menu.items@[i as int];
        let item = &mut menu.items[i];
        item.hover = hit;
        let touched = match &item.sub_menu {
            Some(sub) => hit || sub.any_children_hovered(),
            None => false,
        };
        if touched {
            item.hover_time = time;
        }
        match &mut item.sub_menu {
            Some(sub) => clear_menu(sub),
            None => {},
        }
        assert(first_pass_item(before, menu.items@[i as int], time, x as int, y as int, ox as int, oy as int, i as int));
        i = i + 1;
    }
    let ghost m1 = *menu;
    if n == 0 {
        return;
    }
    let k = latest_item(&menu.items);
    let ht = menu.items[k].hover_time;
    let top: i64 = oy + 31 * (k as i64);
    let ghost chosen = menu.items@[k as int];
    let item = &mut menu.items[k];
    match &mut item.sub_menu {
        Some(sub) => {
            let recent = ht >= time || time - ht < 250;
            if recent || sub.any_children_hovered() {
                proof {
                    let os = m0.items@[k as int].sub_menu->Some_0;
                    assert(first_pass_item(m0.items@[k as int], chosen, time, x as int, y as int, ox as int, oy as int, k as int));
                    lemma_cleared_shape(os, *sub, os.items@.len());
                    lemma_sub_dimensions(m0, k as int);
                }
                update_hover(sub, time, x, y, ox + 127, top);
                sub.open = true;
            }
        },
        None => {},
    }
    proof {
        let m2 = *menu;
        lemma_latest_same_times(m1.items@, m2.items@, n as nat);
        assert forall|j: int| 0 <= j < n implies #[trigger] item_updated(
            m0,
            m2.items@,
            time,
            x as int,
            y as int,
            ox as int,
            oy as int,
            j,
        ) by {
            assert(first_pass_item(m0.items@[j], m1.items@[j], time, x as int, y as int, ox as int, oy as int, j));
            if j == k {
                match m0.items@[j].sub_menu {
                    Some(os) => {
                        let c = m1.items@[j].sub_menu->Some_0;
                        lemma_cleared_shape(os, c, os.items@.len());
                        lemma_cleared_update(os, c, m2.items@[j].sub_menu->Some_0.items@, time, x as int, y as int, ox as int + 127, item_top(oy as int, j), os.items@.len());
                    },
                    None => {},
                }
            }
        }
        lemma_updated_all(m0, m2.items@, time, x as int, y as int, ox as int, oy as int, n as nat);
    }
}

impl Menu {
    /// Handles a move of the pointer to (x, y) at `time` (in milliseconds), the menu being
    /// shown with its first item's top-left corner at (ox, oy): updates which items are
    /// hovered and which sub-menus are open (see `menu_updated`), and asks for a redraw if
    /// the menu no longer looks the same.
    pub fn handle_move(&mut self, time: u64, x: i64, y: i64, ox: i64, oy: i64) -> (r: MenuUpdate)
        requires
            fits(*old(self), x as int, y as int, ox as int, oy as int),
        ensures
            final(self).open == old(self).open,
            menu_updated(*old(self), *final(self), time, x as int, y as int, ox as int, oy as int),
            if same_menu(*old(self), *final(self)) {
                r is Unchanged
            } else {
                r is NeedRender
            },
    {
        let before = self.clone();
        update_hover(self, time, x, y, ox, oy);
        let same = before.open == self.open && items_equal(&before.items, &self.items);
        proof {
            lemma_same_menu_laws(before, *old(self), *self);
            lemma_same_menu_laws(*old(self), before, *self);
        }
        if same {
            MenuUpdate::Unchanged
        } else {
            MenuUpdate::NeedRender
        }
    }
}

proof fn lemma_updated_item(
    old: Menu,
    new: Seq<MenuItem>,
    time: u64,
    x: int,
    y: int,
    ox: int,
    oy: int,
    k: nat,
    i: int,
)
    requires
        updated_upto(old, new, time, x, y, ox, oy, k),
        0 <= i < k <= old.items@.len(),
    ensures
        item_updated(old, new, time, x, y, ox, oy, i),
    decreases k,
{
    if i < k - 1 {
        lemma_updated_item(old, new, time, x, y, ox, oy, (k - 1) as nat, i);
    }
}

/// After a pointer update, at most one item of a menu has its sub-menu open: the item that
/// the pointer touched last.
pub proof fn law_one_sub_menu_open(old: Menu, new: Menu, time: u64, x: int, y: int, ox: int, oy: int, i: int)
    requires
        menu_updated(old, new, time, x, y, ox, oy),
        0 <= i < new.items@.len(),
        new.items@[i].sub_menu is Some,
        new.items@[i].sub_menu->Some_0.open,
    ensures
        i == latest_upto(new.items@, new.items@.len()),
{
    lemma_updated_item(old, new.items@, time, x, y, ox, oy, old.items@.len(), i);
}

/// A pointer update changes what is hovered, open and touched, never the shape of the menu:
/// it occupies as many rows and columns as before.
pub proof fn law_update_keeps_shape(old: Menu, new: Menu, time: u64, x: int, y: int, ox: int, oy: int)
    requires
        menu_updated(old, new, time, x, y, ox, oy),
    ensures
        menu_width(new) == menu_width(old),
        menu_length(new) == menu_length(old),
    decreases old, 1nat, 0nat,
{
    lemma_updated_shape_upto(old, new, time, x, y, ox, oy, old.items@.len());
}

proof fn lemma_updated_shape_upto(
    old: Menu,
    new: Menu,
    time: u64,
    x: int,
    y: int,
    ox: int,
    oy: int,
    k: nat,
)
    requires
        menu_updated(old, new, time, x, y, ox, oy),
        k <= old.items@.len(),
    ensures
        width_upto(new, k) == width_upto(old, k),
        length_upto(new, k) == length_upto(old, k),
    decreases old, 0nat, k,
{
    if k > 0 {
        lemma_updated_shape_upto(old, new, time, x, y, ox, oy, (k - 1) as nat);
        let i = k - 1;
        lemma_updated_item(old, new.items@, time, x, y, ox, oy, old.items@.len(), i);
        let a = old.items@[i];
        let b = new.items@[i];
        assert(new.items@.len() == old.items@.len());
        match a.sub_menu {
            Some(os) => {
                assert(b.sub_menu is Some);
                let ns = b.sub_menu->Some_0;
                if cleared(os, ns) {
                    lemma_cleared_shape(os, ns, os.items@.len());
                } else {
                    assert(decreases_to!(old => os));
                    law_update_keeps_shape(os, ns, time, x, y, ox + 127, item_top(oy, i));
                }
                assert(menu_width(ns) == menu_width(os));
                assert(menu_length(ns) == menu_length(os));
            },
            None => {
                assert(b.sub_menu is None);
            },
        }
    }
}

proof fn lemma_length_attained(m: Menu, k: nat)
    requires
        k <= m.items@.len(),
    ensures
        length_upto(m, k) == m.items@.len() || exists|j: int|
            0 <= j < k && (#[trigger] m.items@[j]).sub_menu is Some && length_upto(m, k) == j
                + menu_length(m.items@[j].sub_menu->Some_0),
    decreases k,
{
    if k > 0 {
        lemma_length_attained(m, (k - 1) as nat);
        let j = k - 1;
        if m.items@[j].sub_menu is Some && length_upto(m, k) == j + menu_length(m.items@[j].sub_menu->Some_0) {
            assert(m.items@[j].sub_menu is Some);
        }
    }
}

proof fn lemma_width_attained(m: Menu, k: nat)
    requires
        k <= m.items@.len(),
    ensures
        width_upto(m, k) == 1 || exists|j: int|
            0 <= j < k && (#[trigger] m.items@[j]).sub_menu is Some && width_upto(m, k) == 1
                + menu_width(m.items@[j].sub_menu->Some_0),
    decreases k,
{
    if k > 0 {
        lemma_width_attained(m, (k - 1) as nat);
        let j = k - 1;
        if m.items@[j].sub_menu is Some && width_upto(m, k) == 1 + menu_width(m.items@[j].sub_menu->Some_0) {
            assert(m.items@[j].sub_menu is Some);
        }
    }
}

/// The rows a menu occupies are the most of: one per item, and, for each item that opens a
/// sub-menu, the item's row index plus the rows of that sub-menu.
pub proof fn law_length_is_max(m: Menu)
    ensures
        menu_length(m) >= m.items@.len(),
        forall|k: int|
            0 <= k < m.items@.len() && (#[trigger] m.items@[k]).sub_menu is Some ==> k + menu_length(
                m.items@[k].sub_menu->Some_0,
            ) <= menu_length(m),
        menu_length(m) == m.items@.len() || exists|k: int|
            0 <= k < m.items@.len() && (#[trigger] m.items@[k]).sub_menu is Some && menu_length(m) == k
                + menu_length(m.items@[k].sub_menu->Some_0),
{
    lemma_length_upto_monotone(m, 0, m.items@.len());
    assert forall|k: int|
        0 <= k < m.items@.len() && (#[trigger] m.items@[k]).sub_menu is Some implies k + menu_length(
            m.items@[k].sub_menu->Some_0,
        ) <= menu_length(m) by {
        lemma_sub_dimensions(m, k);
    }
    lemma_length_attained(m, m.items@.len());
}

/// The columns a menu occupies are the most of: one, and, for each item that opens a
/// sub-menu, one plus the columns of that sub-menu.
pub proof fn law_width_is_max(m: Menu)
    ensures
        menu_width(m) >= 1,
        forall|k: int|
            0 <= k < m.items@.len() && (#[trigger] m.items@[k]).sub_menu is Some ==> 1 + menu_width(
                m.items@[k].sub_menu->Some_0,
            ) <= menu_width(m),
        menu_width(m) == 1 || exists|k: int|
            0 <= k < m.items@.len() && (#[trigger] m.items@[k]).sub_menu is Some && menu_width(m) == 1
                + menu_width(m.items@[k].sub_menu->Some_0),
{
    lemma_width_at_least_one(m, m.items@.len());
    assert forall|k: int|
        0 <= k < m.items@.len() && (#[trigger] m.items@[k]).sub_menu is Some implies 1 + menu_width(
            m.items@[k].sub_menu->Some_0,
        ) <= menu_width(m) by {
        lemma_sub_dimensions(m, k);
    }
    lemma_width_attained(m, m.items@.len());
}

proof fn lemma_width_at_least_one(m: Menu, k: nat)
    ensures
        width_upto(m, k) >= 1,
    decreases k,
{
    if k > 0 {
        lemma_width_at_least_one(m, (k - 1) as nat);
    }
}

proof fn lemma_flat_upto(m: Menu, k: nat)
    requires
        k <= m.items@.len(),
        forall|j: int| 0 <= j < m.items@.len() ==> (#[trigger] m.items@[j]).sub_menu is None,
    ensures
        width_upto(m, k) == 1,
        length_upto(m, k) == m.items@.len(),
    decreases k,
{
    if k > 0 {
        lemma_flat_upto(m, (k - 1) as nat);
        assert(m.items@[k - 1].sub_menu is None);
    }
}

/// A menu takes at least one column and at least a row per item. It takes exactly one
/// column if and only if none of its items opens a sub-menu, and then exactly one row per
/// item.
pub proof fn law_menu_dimensions(m: Menu)
    ensures
        menu_width(m) >= 1,
        menu_length(m) >= m.items@.len(),
        (menu_width(m) == 1) <==> (forall|j: int|
            0 <= j < m.items@.len() ==> (#[trigger] m.items@[j]).sub_menu is None),
        (forall|j: int| 0 <= j < m.items@.len() ==> (#[trigger] m.items@[j]).sub_menu is None)
            ==> menu_length(m) == m.items@.len(),
{
    let n = m.items@.len();
    lemma_width_at_least_one(m, n);
    lemma_length_upto_monotone(m, 0, n);
    if forall|j: int| 0 <= j < n ==> (#[trigger] m.items@[j]).sub_menu is None {
        lemma_flat_upto(m, n);
    } else {
        let j = choose|j: int| 0 <= j < n && (#[trigger] m.items@[j]).sub_menu is Some;
        let c = m.items@[j].sub_menu->Some_0;
        lemma_width_at_least_one(c, c.items@.len());
        lemma_width_upto_monotone(m, (j + 1) as nat, n);
        assert(width_upto(m, (j + 1) as nat) >= 1 + menu_width(c));
    }
}

impl Menu {
    /// Handles a pointer move as `handle_move` does, once it has tested that the
    /// coordinates stay far enough from the limits of `i64` (see `fits`) and that the menu's
    /// dimensions can be counted in a `usize`; otherwise the menu is left as it is.
    pub fn handle_move_checked(&mut self, time: u64, x: i64, y: i64, ox: i64, oy: i64) -> (r: MenuUpdate)
        ensures
            if fits(*old(self), x as int, y as int, ox as int, oy as int) && menu_width(*old(self))
                <= usize::MAX && menu_length(*old(self)) <= usize::MAX {
                &&& final(self).open == old(self).open
                &&& menu_updated(*old(self), *final(self), time, x as int, y as int, ox as int, oy as int)
                &&& if same_menu(*old(self), *final(self)) {
                    r is Unchanged
                } else {
                    r is NeedRender
                }
            } else {
                r is Unchanged && *final(self) == *old(self)
            },
    {
        let limit: i128 = 0x4_0000_0000_0000;
        let (w, l) = match (self.checked_width(), self.checked_length()) {
            (Some(w), Some(l)) => (w as i128, l as i128),
            _ => {
                return MenuUpdate::Unchanged;
            },
        };
        let (xi, yi, oxi, oyi) = (x as i128, y as i128, ox as i128, oy as i128);
        let fits_now = -limit <= xi && xi <= limit && -limit <= yi && yi <= limit && -limit <= oxi
            && oxi + 128 * w <= limit && -limit <= oyi && oyi + 32 * l <= limit;
        if fits_now {
            self.handle_move(time, x, y, ox, oy)
        } else {
            MenuUpdate::Unchanged
        }
    }
}

proof fn lemma_hover_path_shift(m: Menu, i: nat, p: Seq<String>, q: Seq<String>)
    ensures
        hover_path_from(m, i, p + q) == (hover_path_from(m, i, q).0, p + hover_path_from(m, i, q).1),
    decreases m, m.items@.len() - i,
{
    if i < m.items@.len() {
        let item = m.items@[i as int];
        match item.sub_menu {
            Some(sub) => {
                if !item.hover {
                    if sub.open && menu_hovered(sub) {
                        assert((p + q).push(item.label) == p + q.push(item.label));
                        assert(decreases_to!(m => sub));
                        lemma_hover_path_shift(sub, 0, p, q.push(item.label));
                        assert(hover_path(sub, q.push(item.label)) == hover_path_from(sub, 0, q.push(item.label)));
                        assert(hover_path(sub, (p + q).push(item.label)) == hover_path_from(
                            sub,
                            0,
                            p + q.push(item.label),
                        ));
                        let (ok, inner) = hover_path(sub, q.push(item.label));
                        if ok {
                            lemma_hover_path_shift(m, i + 1, p, inner);
                            assert(hover_path_from(m, i, q) == hover_path_from(m, i + 1, inner));
                            assert(hover_path_from(m, i, p + q) == hover_path_from(m, i + 1, p + inner));
                        } else {
                            assert(hover_path_from(m, i, q) == (false, inner));
                            assert(hover_path_from(m, i, p + q) == (false, p + inner));
                        }
                    } else {
                        lemma_hover_path_shift(m, i + 1, p, q);
                    }
                }
            },
            None => {
                if item.hover {
                    assert((p + q).push(item.label) == p + q.push(item.label));
                    lemma_hover_path_shift(m, i + 1, p, q.push(item.label));
                } else {
                    lemma_hover_path_shift(m, i + 1, p, q);
                }
            },
        }
    } else {
        assert(p + q == p + q);
    }
}

/// Walking a menu for the selection path adds to the path it starts from: started from any
/// labels, it gives those labels followed by exactly what it gives started from none, and
/// succeeds or stops alike. So every sub-menu on the way down adds its own label to the
/// path, however deep it lies.
pub proof fn law_selection_extends_path(m: Menu, path: Seq<String>)
    ensures
        hover_path(m, path) == (hover_path(m, Seq::empty()).0, path + hover_path(m, Seq::empty()).1),
{
    lemma_hover_path_shift(m, 0, path, Seq::empty());
    assert(path + Seq::<String>::empty() == path);
}

/// A pointer update depends only on where the pointer is relative to the menu: moving the
/// pointer and the menu's position by the same amount gives the same hover, open and
/// hover-time state, sub-menus included.
pub proof fn law_update_translates(
    old: Menu,
    new: Menu,
    time: u64,
    x: int,
    y: int,
    ox: int,
    oy: int,
    dx: int,
    dy: int,
)
    ensures
        menu_updated(old, new, time, x, y, ox, oy) == menu_updated(
            old,
            new,
            time,
            x + dx,
            y + dy,
            ox + dx,
            oy + dy,
        ),
    decreases old, 2nat, 0nat,
{
    lemma_updated_translate(old, new.items@, time, x, y, ox, oy, dx, dy, old.items@.len());
}

proof fn lemma_updated_translate(
    old: Menu,
    new: Seq<MenuItem>,
    time: u64,
    x: int,
    y: int,
    ox: int,
    oy: int,
    dx: int,
    dy: int,
    k: nat,
)
    ensures
        updated_upto(old, new, time, x, y, ox, oy, k) == updated_upto(
            old,
            new,
            time,
            x + dx,
            y + dy,
            ox + dx,
            oy + dy,
            k,
        ),
    decreases old, 1nat, k,
{
    if k > 0 && k <= old.items@.len() {
        lemma_updated_translate(old, new, time, x, y, ox, oy, dx, dy, (k - 1) as nat);
        lemma_item_translate(old, new, time, x, y, ox, oy, dx, dy, k - 1);
    }
}

proof fn lemma_item_translate(
    old: Menu,
    new: Seq<MenuItem>,
    time: u64,
    x: int,
    y: int,
    ox: int,
    oy: int,
    dx: int,
    dy: int,
    i: int,
)
    ensures
        item_updated(old, new, time, x, y, ox, oy, i) == item_updated(
            old,
            new,
            time,
            x + dx,
            y + dy,
            ox + dx,
            oy + dy,
            i,
        ),
    decreases old, 0nat, 0nat,
{
    if 0 <= i < old.items@.len() && i < new.len() {
        let a = old.items@[i];
        let top = item_top(oy, i);
        assert(item_top(oy + dy, i) == top + dy);
        assert(item_hit(ox, top, x, y) == item_hit(ox + dx, top + dy, x + dx, y + dy));
        match a.sub_menu {
            Some(os) => match new[i].sub_menu {
                Some(ns) => {
                    assert(decreases_to!(old => os));
                    law_update_translates(os, ns, time, x, y, ox + 127, top, dx, dy);
                    assert(ox + 127 + dx == ox + dx + 127);
                },
                None => {},
            },
            None => {},
        }
    }
}

proof fn lemma_not_hovered_items(m: Menu, k: nat, i: int)
    requires
        k <= m.items@.len(),
        !hovered_upto(m, k),
        0 <= i < k,
    ensures
        !m.items@[i].hover,
        match m.items@[i].sub_menu {
            Some(child) => !menu_hovered(child),
            None => true,
        },
    decreases k,
{
    if i < k - 1 {
        lemma_not_hovered_items(m, (k - 1) as nat, i);
    }
}

proof fn lemma_unhovered_path(m: Menu, i: nat, path: Seq<String>)
    requires
        !menu_hovered(m),
        i <= m.items@.len(),
    ensures
        hover_path_from(m, i, path) == (true, path),
    decreases m.items@.len() - i,
{
    if i < m.items@.len() {
        lemma_not_hovered_items(m, m.items@.len(), i as int);
        lemma_unhovered_path(m, i + 1, path);
    }
}

/// A menu that the pointer is over nowhere selects nothing.
pub proof fn law_unhovered_selects_nothing(m: Menu)
    requires
        !menu_hovered(m),
    ensures
        menu_selection(m) is None,
{
    lemma_unhovered_path(m, 0, Seq::empty());
}

} // verus!
