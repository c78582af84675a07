//! The launcher bar's menus: packages without a category sit on the bar,
//! the others are grouped into category submenus of the Start menu; and
//! the decisions taken while the user browses them.

use vstd::prelude::*;

use crate::order::{
    lemma_lex_irreflexive, lemma_lex_total, lemma_lex_transitive, lemma_sorted_order_bounds,
    lemma_sorted_order_onto, lex_less, lex_lt, listed, sorted_indices, sorted_order,
};
use crate::launcher::{category_exec, spec_category_exec, spec_menu_step, MenuStepView};
use crate::packages::PackageInfo;
use crate::text::{chars_of, eq_chars, has_prefix, string_of};

verus! {

/// How often `c` occurs in `cats`.
pub open spec fn count_in(cats: Seq<Seq<char>>, c: Seq<char>) -> nat
    decreases cats.len(),
{
    if cats.len() == 0 {
        0
    } else {
        count_in(cats.drop_last(), c) + if cats.last() == c {
            1nat
        } else {
            0nat
        }
    }
}

/// The packages (by position) that list category `c`, once per listing,
/// in order.
pub open spec fn members_of(pc: Seq<Seq<Seq<char>>>, c: Seq<char>) -> Seq<usize>
    decreases pc.len(),
{
    if pc.len() == 0 {
        seq![]
    } else {
        members_of(pc.drop_last(), c) + Seq::new(count_in(pc.last(), c), |_j: int| (pc.len() - 1) as usize)
    }
}

/// Some package lists category `c`.
pub open spec fn occurs(pc: Seq<Seq<Seq<char>>>, c: Seq<char>) -> bool {
    exists|p: int, k: int| 0 <= p < pc.len() && 0 <= k < pc[p].len() && #[trigger] pc[p][k] == c
}

/// Each name sorts strictly before the next: sorted, no name twice.
pub open spec fn strictly_sorted(s: Seq<Seq<char>>) -> bool {
    forall|i: int, j: int| 0 <= i < j < s.len() ==> lex_lt(#[trigger] s[i], #[trigger] s[j])
}

/// The categories of each package.
pub open spec fn package_categories(packages: Seq<PackageInfo>) -> Seq<Seq<Seq<char>>> {
    packages.map_values(|p: PackageInfo| p.categories.deep_view())
}

/// The packages without a category, by position.
pub open spec fn uncategorized(packages: Seq<PackageInfo>) -> Seq<usize> {
    Seq::new(packages.len(), |i: int| i as usize).filter(
        |i: usize| packages[i as int].categories@.len() == 0,
    )
}

/// The packages on the bar: those without a category, sorted by id.
pub open spec fn spec_bar_packages(packages: Seq<PackageInfo>) -> Seq<usize> {
    let free = uncategorized(packages);
    sorted_order(free.map_values(|i: usize| packages[i as int].id@)).map_values(
        |q: usize| free[q as int],
    )
}

/// The bar and the category submenus.
#[derive(Debug)]
pub struct BarMenus {
    /// Packages shown on the bar, by position.
    pub bar: Vec<usize>,
    /// Category names, sorted.
    pub categories: Vec<String>,
    /// For each category, the packages of its submenu.
    pub members: Vec<Vec<usize>>,
    /// The entries of the Start menu.
    pub start: Vec<MenuEntry>,
    /// For each category, the entries of its submenu.
    pub submenus: Vec<Vec<MenuEntry>>,
}

/// An entry of the Start menu or of a category submenu.
#[derive(Clone, Copy, Debug, PartialEq, Eq)]
pub enum MenuEntry {
    /// Category `k` of the menus: opens its submenu.
    Category(usize),
    /// A package, by position: launches it.
    Package(usize),
    /// Back from a submenu to the Start menu.
    GoBack,
    /// Log out: the last entry of the Start menu.
    Logout,
}

/// The Start menu: one entry per category, in order, then Logout.
pub open spec fn spec_start_entries(n: nat) -> Seq<MenuEntry> {
    Seq::new(n, |k: int| MenuEntry::Category(k as usize)).push(MenuEntry::Logout)
}

/// A category submenu: its packages, in order, then the way back.
pub open spec fn spec_submenu_entries(members: Seq<usize>) -> Seq<MenuEntry> {
    members.map_values(|i: usize| MenuEntry::Package(i)).push(MenuEntry::GoBack)
}

/// The entries of the Start menu for `n` categories.
pub fn start_entries(n: usize) -> (r: Vec<MenuEntry>)
    ensures
        r@ == spec_start_entries(n as nat),
{
    let mut r: Vec<MenuEntry> = Vec::new();
    let mut k: usize = 0;
    while k < n
        invariant
            k <= n,
            r@ == Seq::new(k as nat, |j: int| MenuEntry::Category(j as usize)),
        decreases n - k,
    {
        r.push(MenuEntry::Category(k));
        assert(r@ =~= Seq::new((k + 1) as nat, |j: int| MenuEntry::Category(j as usize)));
        k = k + 1;
    }
    r.push(MenuEntry::Logout);
    r
}

/// The entries of the submenu whose packages are `members`.
pub fn submenu_entries(members: &Vec<usize>) -> (r: Vec<MenuEntry>)
    ensures
        r@ == spec_submenu_entries(members@),
{
    let mut r: Vec<MenuEntry> = Vec::new();
    let mut k: usize = 0;
    while k < members.len()
        invariant
            k <= members@.len(),
            r@ == members@.take(k as int).map_values(|i: usize| MenuEntry::Package(i)),
        decreases members.len() - k,
    {
        r.push(MenuEntry::Package(members[k]));
        assert(r@ =~= members@.take(k + 1).map_values(|i: usize| MenuEntry::Package(i)));
        k = k + 1;
    }
    assert(members@.take(members@.len() as int) =~= members@);
    r.push(MenuEntry::GoBack);
    r
}

/// What an entry shows and runs: its name and its `Exec` line. A category
/// entry shows the category and opens it, a package entry shows and runs
/// the package, the way back is "Go back" and Logout is "Logout", both
/// running `exit`.
pub open spec fn spec_entry_text(
    e: MenuEntry,
    categories: Seq<Seq<char>>,
    packages: Seq<PackageInfo>,
) -> (Seq<char>, Seq<char>) {
    match e {
        MenuEntry::Category(k) => (categories[k as int], spec_category_exec(categories[k as int])),
        MenuEntry::Package(i) => (packages[i as int].name@, packages[i as int].command@),
        MenuEntry::GoBack => ("Go back"@, "exit"@),
        MenuEntry::Logout => ("Logout"@, "exit"@),
    }
}

/// The name and `Exec` line of a menu entry.
pub fn entry_text(e: MenuEntry, categories: &Vec<String>, packages: &Vec<PackageInfo>) -> (r: (
    String,
    String,
))
    requires
        match e {
            MenuEntry::Category(k) => k < categories@.len(),
            MenuEntry::Package(i) => i < packages@.len(),
            _ => true,
        },
    ensures
        (r.0@, r.1@) == spec_entry_text(e, categories.deep_view(), packages@),
{
    match e {
        MenuEntry::Category(k) => (categories[k].clone(), category_exec(categories[k].as_str())),
        MenuEntry::Package(i) => (packages[i].name.clone(), packages[i].command.clone()),
        MenuEntry::GoBack => ("Go back".to_owned(), "exit".to_owned()),
        MenuEntry::Logout => ("Logout".to_owned(), "exit".to_owned()),
    }
}

/// The icon of a menu entry, under the icon directory; a package entry
/// shows the package's own icon (`None`).
pub open spec fn spec_entry_icon(e: MenuEntry) -> Option<Seq<char>> {
    match e {
        MenuEntry::Category(_) => Some("mimetypes/inode-directory.png"@),
        MenuEntry::GoBack => Some("mimetypes/inode-directory.png"@),
        MenuEntry::Logout => Some("actions/system-log-out.png"@),
        MenuEntry::Package(_) => None,
    }
}

/// The icon file of a menu entry.
pub fn entry_icon(e: MenuEntry) -> (r: Option<&'static str>)
    ensures
        match r {
            Some(p) => spec_entry_icon(e) == Some(p@),
            None => spec_entry_icon(e) is None,
        },
{
    match e {
        MenuEntry::Category(_) => Some("mimetypes/inode-directory.png"),
        MenuEntry::GoBack => Some("mimetypes/inode-directory.png"),
        MenuEntry::Logout => Some("actions/system-log-out.png"),
        MenuEntry::Package(_) => None,
    }
}

proof fn lemma_count_in_step(s: Seq<Seq<char>>, k: int, x: Seq<char>)
    requires
        0 <= k < s.len(),
    ensures
        count_in(s.take(k + 1), x) == count_in(s.take(k), x) + if s[k] == x {
            1nat
        } else {
            0nat
        },
{
    assert(s.take(k + 1).drop_last() =~= s.take(k));
}

proof fn lemma_count_in_zero(s: Seq<Seq<char>>, x: Seq<char>)
    requires
        forall|k: int| 0 <= k < s.len() ==> s[k] != x,
    ensures
        count_in(s, x) == 0,
    decreases s.len(),
{
    if s.len() > 0 {
        lemma_count_in_zero(s.drop_last(), x);
    }
}

proof fn lemma_members_absent(pc: Seq<Seq<Seq<char>>>, c: Seq<char>)
    requires
        !occurs(pc, c),
    ensures
        members_of(pc, c) == Seq::<usize>::empty(),
    decreases pc.len(),
{
    if pc.len() > 0 {
        assert(!occurs(pc.drop_last(), c)) by {
            if occurs(pc.drop_last(), c) {
                let (p, k) = choose|p: int, k: int|
                    0 <= p < pc.drop_last().len() && 0 <= k < pc.drop_last()[p].len()
                        && #[trigger] pc.drop_last()[p][k] == c;
                assert(pc[p][k] == c);
            }
        }
        lemma_members_absent(pc.drop_last(), c);
        assert forall|k: int| 0 <= k < pc.last().len() implies pc.last()[k] != c by {
            if pc.last()[k] == c {
                assert(pc[pc.len() - 1][k] == c);
            }
        }
        lemma_count_in_zero(pc.last(), c);
        assert(members_of(pc, c) =~= Seq::<usize>::empty());
    }
}

/// The packages processed so far: packages `0..i`, then the first `k`
/// categories of package `i`.
pub open spec fn processed(pc: Seq<Seq<Seq<char>>>, i: int, k: int) -> Seq<Seq<Seq<char>>> {
    pc.take(i).push(pc[i].take(k))
}

proof fn lemma_processed_step(pc: Seq<Seq<Seq<char>>>, i: int, k: int, x: Seq<char>)
    requires
        0 <= i < pc.len(),
        0 <= k < pc[i].len(),
    ensures
        members_of(processed(pc, i, k + 1), x) == members_of(processed(pc, i, k), x) + if pc[i][k]
            == x {
            seq![i as usize]
        } else {
            Seq::<usize>::empty()
        },
        occurs(processed(pc, i, k + 1), x) == (occurs(processed(pc, i, k), x) || pc[i][k] == x),
{
    let a = processed(pc, i, k);
    let b = processed(pc, i, k + 1);
    assert(a.drop_last() =~= pc.take(i));
    assert(b.drop_last() =~= pc.take(i));
    lemma_count_in_step(pc[i], k, x);
    let n = count_in(pc[i].take(k), x);
    if pc[i][k] == x {
        assert(Seq::new(n + 1, |_j: int| i as usize) =~= Seq::new(n, |_j: int| i as usize).push(
            i as usize,
        ));
        assert(members_of(b, x) =~= members_of(a, x) + seq![i as usize]);
    } else {
        assert(members_of(b, x) =~= members_of(a, x));
    }
    if occurs(b, x) {
        let (p, q) = choose|p: int, q: int|
            0 <= p < b.len() && 0 <= q < b[p].len() && #[trigger] b[p][q] == x;
        if p < i {
            assert(a[p][q] == x);
        } else if q < k {
            assert(a[p][q] == x);
        }
    }
    if occurs(a, x) {
        let (p, q) = choose|p: int, q: int|
            0 <= p < a.len() && 0 <= q < a[p].len() && #[trigger] a[p][q] == x;
        assert(b[p][q] == x);
    }
    if pc[i][k] == x {
        assert(b[i][k] == x);
    }
}

proof fn lemma_processed_next(pc: Seq<Seq<Seq<char>>>, i: int, x: Seq<char>)
    requires
        0 <= i < pc.len(),
    ensures
        members_of(processed(pc, i, pc[i].len() as int), x) == members_of(pc.take(i + 1), x),
        occurs(processed(pc, i, pc[i].len() as int), x) == occurs(pc.take(i + 1), x),
        members_of(processed(pc, i, 0), x) == members_of(pc.take(i), x),
        occurs(processed(pc, i, 0), x) == occurs(pc.take(i), x),
{
    assert(pc[i].take(pc[i].len() as int) =~= pc[i]);
    assert(processed(pc, i, pc[i].len() as int) =~= pc.take(i + 1));
    let z = processed(pc, i, 0);
    assert(z.drop_last() =~= pc.take(i));
    assert(pc[i].take(0) =~= Seq::<Seq<char>>::empty());
    assert(count_in(z.last(), x) == 0);
    assert(members_of(z, x) =~= members_of(pc.take(i), x));
    if occurs(z, x) {
        let (p, q) = choose|p: int, q: int| 0 <= p < z.len() && 0 <= q < z[p].len() && #[trigger] z[p][q] == x;
        assert(pc.take(i)[p][q] == x);
    }
    if occurs(pc.take(i), x) {
        let (p, q) = choose|p: int, q: int|
            0 <= p < pc.take(i).len() && 0 <= q < pc.take(i)[p].len() && #[trigger] pc.take(i)[p][q] == x;
        assert(z[p][q] == x);
    }
}

/// Sorts the packages into the bar and the category submenus.
pub fn bar_menus(packages: &Vec<PackageInfo>) -> (m: BarMenus)
    ensures
        m.bar@ == spec_bar_packages(packages@),
        strictly_sorted(m.categories.deep_view()),
        forall|c: Seq<char>|
            #![trigger occurs(package_categories(packages@), c)]
            m.categories.deep_view().contains(c) <==> occurs(package_categories(packages@), c),
        m.members@.len() == m.categories@.len(),
        forall|k: int|
            0 <= k < m.members@.len() ==> #[trigger] m.members@[k]@ == members_of(
                package_categories(packages@),
                m.categories@[k]@,
            ),
        m.start@ == spec_start_entries(m.categories@.len()),
        m.submenus@.len() == m.categories@.len(),
        forall|k: int|
            0 <= k < m.submenus@.len() ==> #[trigger] m.submenus@[k]@ == spec_submenu_entries(
                m.members@[k]@,
            ),
{
    let ghost pc = package_categories(packages@);
    let ghost all = Seq::new(packages@.len(), |j: int| j as usize);
    let mut free: Vec<usize> = Vec::new();
    let mut cats: Vec<Vec<char>> = Vec::new();
    let mut members: Vec<Vec<usize>> = Vec::new();
    let n = packages.len();
    let mut i: usize = 0;
    while i < n
        invariant
            i <= n == packages@.len(),
            pc == package_categories(packages@),
            all == Seq::new(packages@.len(), |j: int| j as usize),
            free@ == all.take(i as int).filter(
                |j: usize| packages@[j as int].categories@.len() == 0,
            ),
            members@.len() == cats@.len(),
            forall|t: int| 0 <= t < free@.len() ==> #[trigger] free@[t] < i,
            forall|a: int, b: int| 0 <= a < b < cats@.len() ==> lex_lt(#[trigger] cats@[a]@, #[trigger] cats@[b]@),
            forall|x: Seq<char>|
                #![trigger occurs(pc.take(i as int), x)]
                (exists|j: int| 0 <= j < cats@.len() && #[trigger] cats@[j]@ == x) <==> occurs(pc.take(i as int), x),
            forall|j: int|
                0 <= j < cats@.len() ==> #[trigger] members@[j]@ == members_of(pc.take(i as int), cats@[j]@),
        decreases n - i,
    {
        let pcats = &packages[i].categories;
        assert(pc[i as int] == pcats.deep_view());
        if pcats.len() == 0 {
            free.push(i);
        }
        proof {
            reveal_with_fuel(Seq::<_>::filter, 1);
            assert(all.take(i + 1).drop_last() =~= all.take(i as int));
            assert(all.take(i + 1).last() == i);
            assert forall|x: Seq<char>| #![all_triggers] true implies
                members_of(processed(pc, i as int, 0), x) == members_of(pc.take(i as int), x)
                && occurs(processed(pc, i as int, 0), x) == occurs(pc.take(i as int), x) by {
                lemma_processed_next(pc, i as int, x);
            }
        }
        let m = pcats.len();
        let mut k: usize = 0;
        while k < m
            invariant
                i < n == packages@.len(),
                k <= m == pc[i as int].len(),
                pc == package_categories(packages@),
                pcats.deep_view() == pc[i as int],
                members@.len() == cats@.len(),
                forall|a: int, b: int| 0 <= a < b < cats@.len() ==> lex_lt(#[trigger] cats@[a]@, #[trigger] cats@[b]@),
                forall|x: Seq<char>|
                    #![trigger occurs(processed(pc, i as int, k as int), x)]
                    (exists|j: int| 0 <= j < cats@.len() && #[trigger] cats@[j]@ == x) <==> occurs(
                        processed(pc, i as int, k as int),
                        x,
                    ),
                forall|j: int|
                    0 <= j < cats@.len() ==> #[trigger] members@[j]@ == members_of(
                        processed(pc, i as int, k as int),
                        cats@[j]@,
                    ),
            decreases m - k,
        {
            let c = chars_of(pcats[k].as_str());
            assert(c@ == pc[i as int][k as int]);
            proof {
                assert forall|x: Seq<char>| #![all_triggers] true implies members_of(
                    processed(pc, i as int, k + 1),
                    x,
                ) == members_of(processed(pc, i as int, k as int), x) + if c@ == x {
                    seq![i]
                } else {
                    Seq::<usize>::empty()
                } && occurs(processed(pc, i as int, k + 1), x) == (occurs(
                    processed(pc, i as int, k as int),
                    x,
                ) || c@ == x) by {
                    lemma_processed_step(pc, i as int, k as int, x);
                }
            }
            let mut pos: usize = 0;
            while pos < cats.len() && lex_less(&cats[pos], &c)
                invariant
                    pos <= cats@.len(),
                    forall|j: int| 0 <= j < pos ==> lex_lt(#[trigger] cats@[j]@, c@),
                decreases cats.len() - pos,
            {
                pos = pos + 1;
            }
            if pos < cats.len() && eq_chars(&cats[pos], &c) {
                let mut list = members.remove(pos);
                list.push(i);
                members.insert(pos, list);
                proof {
                    assert forall|x: Seq<char>|
                        #![trigger occurs(processed(pc, i as int, k + 1), x)]
                        (exists|j: int| 0 <= j < cats@.len() && #[trigger] cats@[j]@ == x) <==> occurs(
                            processed(pc, i as int, k + 1),
                            x,
                        ) by {
                        lemma_processed_step(pc, i as int, k as int, x);
                        if c@ == x {
                            assert(cats@[pos as int]@ == x);
                        }
                    }
                    assert forall|j: int| 0 <= j < cats@.len() implies #[trigger] members@[j]@
                        == members_of(processed(pc, i as int, k + 1), cats@[j]@) by {
                        if j != pos {
                            if cats@[j]@ == c@ {
                                lemma_lex_irreflexive(c@);
                                if j < pos {
                                } else {
                                    assert(lex_lt(cats@[pos as int]@, cats@[j]@));
                                }
                            }
                        }
                    }
                }
            } else {
                proof {
                    if pos < cats@.len() {
                        lemma_lex_total(cats@[pos as int]@, c@);
                    }
                    assert forall|j: int| 0 <= j < cats@.len() implies #[trigger] cats@[j]@ != c@ by {
                        if j < pos {
                            lemma_lex_irreflexive(c@);
                        } else if j > pos {
                            if cats@[j]@ == c@ {
                                lemma_lex_transitive(c@, cats@[pos as int]@, c@);
                                lemma_lex_irreflexive(c@);
                            }
                        }
                    }
                    assert(!occurs(processed(pc, i as int, k as int), c@));
                    lemma_members_absent(processed(pc, i as int, k as int), c@);
                }
                let ghost old_cats = cats@;
                cats.insert(pos, c);
                let mut list: Vec<usize> = Vec::new();
                list.push(i);
                members.insert(pos, list);
                proof {
                    assert forall|a: int, b: int| 0 <= a < b < cats@.len() implies lex_lt(
                        #[trigger] cats@[a]@,
                        #[trigger] cats@[b]@,
                    ) by {
                        if a < pos && b == pos {
                        } else if a == pos && b > pos {
                            assert(cats@[b] == old_cats[b - 1]);
                            if b - 1 > pos {
                                lemma_lex_transitive(c@, old_cats[pos as int]@, old_cats[b - 1]@);
                            }
                        } else if a < pos && b > pos {
                            assert(cats@[b] == old_cats[b - 1]);
                        } else if a > pos {
                            assert(cats@[a] == old_cats[a - 1]);
                            assert(cats@[b] == old_cats[b - 1]);
                        }
                    }
                    assert forall|j: int| 0 <= j < cats@.len() implies #[trigger] members@[j]@
                        == members_of(processed(pc, i as int, k + 1), cats@[j]@) by {
                        if j < pos {
                            assert(cats@[j] == old_cats[j]);
                        } else if j > pos {
                            assert(cats@[j] == old_cats[j - 1]);
                        } else {
                            assert(members@[j]@ =~= seq![i]);
                            assert(Seq::<usize>::empty() + seq![i] =~= seq![i]);
                        }
                    }
                    assert forall|x: Seq<char>|
                        #![trigger occurs(processed(pc, i as int, k + 1), x)]
                        (exists|j: int| 0 <= j < cats@.len() && #[trigger] cats@[j]@ == x) <==> occurs(
                            processed(pc, i as int, k + 1),
                            x,
                        ) by {
                        if exists|j: int| 0 <= j < cats@.len() && #[trigger] cats@[j]@ == x {
                            let j = choose|j: int| 0 <= j < cats@.len() && #[trigger] cats@[j]@ == x;
                            if j < pos {
                                assert(old_cats[j]@ == x);
                            } else if j > pos {
                                assert(old_cats[j - 1]@ == x);
                            }
                        }
                        if occurs(processed(pc, i as int, k as int), x) {
                            let j = choose|j: int| 0 <= j < old_cats.len() && #[trigger] old_cats[j]@ == x;
                            if j < pos {
                                assert(cats@[j]@ == x);
                            } else {
                                assert(cats@[j + 1]@ == x);
                            }
                        }
                        if c@ == x {
                            assert(cats@[pos as int]@ == x);
                        }
                    }
                }
            }
            k = k + 1;
        }
        proof {
            assert forall|x: Seq<char>|
                #![trigger occurs(pc.take(i + 1), x)]
                (exists|j: int| 0 <= j < cats@.len() && #[trigger] cats@[j]@ == x) <==> occurs(
                    pc.take(i + 1),
                    x,
                ) by {
                lemma_processed_next(pc, i as int, x);
            }
            assert forall|j: int| 0 <= j < cats@.len() implies #[trigger] members@[j]@ == members_of(
                pc.take(i + 1),
                cats@[j]@,
            ) by {
                lemma_processed_next(pc, i as int, cats@[j]@);
            }
        }
        i = i + 1;
    }
    proof {
        assert(pc.take(n as int) =~= pc);
        assert(all.take(n as int) =~= all);
    }
    // The bar: packages without a category, sorted by id.
    let mut ids: Vec<String> = Vec::new();
    let mut q: usize = 0;
    while q < free.len()
        invariant
            q <= free@.len(),
            free@ == uncategorized(packages@),
            forall|t: int| 0 <= t < free@.len() ==> #[trigger] free@[t] < packages@.len(),
            ids.deep_view() == free@.take(q as int).map_values(|j: usize| packages@[j as int].id@),
        decreases free.len() - q,
    {
        ids.push(packages[free[q]].id.clone());
        assert(free@.take(q + 1).map_values(|j: usize| packages@[j as int].id@) =~= free@.take(
            q as int,
        ).map_values(|j: usize| packages@[j as int].id@).push(packages@[free@[q as int] as int].id@));
        assert(ids.deep_view() =~= free@.take(q + 1).map_values(|j: usize| packages@[j as int].id@));
        q = q + 1;
    }
    assert(free@.take(free@.len() as int) =~= free@);
    let order = sorted_indices(&ids);
    proof {
        lemma_sorted_order_bounds(ids.deep_view());
    }
    let mut bar: Vec<usize> = Vec::new();
    let mut t: usize = 0;
    while t < order.len()
        invariant
            t <= order@.len(),
            order@.len() == free@.len(),
            forall|o: int| 0 <= o < order@.len() ==> #[trigger] order@[o] < free@.len(),
            bar@ == order@.take(t as int).map_values(|o: usize| free@[o as int]),
        decreases order.len() - t,
    {
        bar.push(free[order[t]]);
        assert(order@.take(t + 1).map_values(|o: usize| free@[o as int]) =~= order@.take(
            t as int,
        ).map_values(|o: usize| free@[o as int]).push(free@[order@[t as int] as int]));
        t = t + 1;
    }
    assert(order@.take(order@.len() as int) =~= order@);
    // The category names.
    let mut names: Vec<String> = Vec::new();
    let mut j: usize = 0;
    while j < cats.len()
        invariant
            j <= cats@.len(),
            names@.len() == j,
            forall|t: int| 0 <= t < j ==> #[trigger] names@[t]@ == cats@[t]@,
        decreases cats.len() - j,
    {
        names.push(string_of(&cats[j]));
        j = j + 1;
    }
    proof {
        assert forall|c: Seq<char>|
            #![trigger occurs(package_categories(packages@), c)]
            names.deep_view().contains(c) <==> occurs(package_categories(packages@), c) by {
            if names.deep_view().contains(c) {
                let t = choose|t: int| 0 <= t < names.deep_view().len() && names.deep_view()[t] == c;
                assert(cats@[t]@ == c);
            }
            if occurs(pc, c) {
                let t = choose|t: int| 0 <= t < cats@.len() && #[trigger] cats@[t]@ == c;
                assert(names.deep_view()[t] == c);
            }
        }
    }
    let start = start_entries(names.len());
    let mut submenus: Vec<Vec<MenuEntry>> = Vec::new();
    let mut k: usize = 0;
    while k < members.len()
        invariant
            k <= members@.len(),
            submenus@.len() == k,
            forall|t: int|
                0 <= t < k ==> #[trigger] submenus@[t]@ == spec_submenu_entries(members@[t]@),
        decreases members.len() - k,
    {
        submenus.push(submenu_entries(&members[k]));
        k = k + 1;
    }
    BarMenus { bar, categories: names, members, start, submenus }
}


proof fn lemma_count_in_pos(cats: Seq<Seq<char>>, k: int)
    requires
        0 <= k < cats.len(),
    ensures
        count_in(cats, cats[k]) >= 1,
    decreases cats.len(),
{
    if k < cats.len() - 1 {
        lemma_count_in_pos(cats.drop_last(), k);
        assert(cats.drop_last()[k] == cats[k]);
    }
}

proof fn lemma_members_has(pc: Seq<Seq<Seq<char>>>, i: int, k: int)
    requires
        0 <= i < pc.len() <= usize::MAX,
        0 <= k < pc[i].len(),
    ensures
        members_of(pc, pc[i][k]).contains(i as usize),
    decreases pc.len(),
{
    let c = pc[i][k];
    let head = members_of(pc.drop_last(), c);
    let tail = Seq::new(count_in(pc.last(), c), |_j: int| (pc.len() - 1) as usize);
    assert(members_of(pc, c) == head + tail);
    if i == pc.len() - 1 {
        lemma_count_in_pos(pc.last(), k);
        assert((head + tail)[head.len() as int] == i as usize);
    } else {
        assert(pc.drop_last()[i] == pc[i]);
        lemma_members_has(pc.drop_last(), i, k);
        let q = choose|q: int| 0 <= q < head.len() && head[q] == i as usize;
        assert((head + tail)[q] == i as usize);
    }
}

/// Every package has its place: a package without a category is on the
/// bar, every package on the bar is one without a category, and a package
/// with categories is in the submenu of each of them.
pub proof fn lemma_every_package_placed(packages: Seq<PackageInfo>)
    requires
        packages.len() <= usize::MAX,
    ensures
        forall|i: int|
            0 <= i < packages.len() && packages[i].categories@.len() == 0 ==> #[trigger] listed(
                spec_bar_packages(packages),
                i,
            ),
        forall|a: int|
            0 <= a < spec_bar_packages(packages).len() ==> #[trigger] spec_bar_packages(packages)[a]
                < packages.len() && packages[spec_bar_packages(packages)[a] as int].categories@.len()
                == 0,
        forall|i: int, k: int|
            0 <= i < packages.len() && 0 <= k < packages[i].categories@.len() ==> #[trigger] members_of(
                package_categories(packages),
                packages[i].categories.deep_view()[k],
            ).contains(i as usize),
{
    let all = Seq::new(packages.len(), |j: int| j as usize);
    let pred = |j: usize| packages[j as int].categories@.len() == 0;
    let free = uncategorized(packages);
    assert(free == all.filter(pred));
    let ids = free.map_values(|j: usize| packages[j as int].id@);
    let so = sorted_order(ids);
    let bar = spec_bar_packages(packages);
    all.lemma_filter_len(pred);
    lemma_sorted_order_bounds(ids);
    lemma_sorted_order_onto(ids);
    assert forall|a: int| 0 <= a < bar.len() implies #[trigger] bar[a] < packages.len()
        && packages[bar[a] as int].categories@.len() == 0 by {
        let f = so[a] as int;
        assert(bar[a] == free[f]);
        all.lemma_filter_pred(pred, f);
        assert(free.contains(free[f]));
        all.lemma_filter_contains_rev(pred, free[f]);
    }
    assert forall|i: int| 0 <= i < packages.len() && packages[i].categories@.len() == 0 implies #[trigger] listed(
        bar,
        i,
    ) by {
        assert(all[i] == i as usize);
        all.lemma_filter_contains(pred, i);
        let f = choose|f: int| 0 <= f < free.len() && free[f] == all[i];
        assert(listed(so, f));
        let a = choose|a: int| 0 <= a < so.len() && so[a] == f;
        assert(bar[a] == free[f]);
    }
    let pc = package_categories(packages);
    assert forall|i: int, k: int| 0 <= i < packages.len() && 0 <= k < packages[i].categories@.len() implies #[trigger] members_of(
        pc,
        packages[i].categories.deep_view()[k],
    ).contains(i as usize) by {
        assert(pc[i] == packages[i].categories.deep_view());
        lemma_members_has(pc, i, k);
    }
}


/// Picking an entry does what it says: a category entry opens that
/// category's submenu, the way back returns from a submenu to the Start
/// menu, and Logout in the Start menu logs out.
pub proof fn lemma_menu_entries_act(
    categories: Seq<Seq<char>>,
    packages: Seq<PackageInfo>,
    k: usize,
    open: Seq<char>,
)
    requires
        k < categories.len(),
    ensures
        spec_menu_step(None, Some(spec_entry_text(MenuEntry::Category(k), categories, packages).1))
            == MenuStepView::Show(Some(categories[k as int])),
        spec_menu_step(Some(open), Some(spec_entry_text(MenuEntry::Category(k), categories, packages).1))
            == MenuStepView::Show(Some(categories[k as int])),
        spec_menu_step(Some(open), Some(spec_entry_text(MenuEntry::GoBack, categories, packages).1))
            == MenuStepView::Show(None),
        spec_menu_step(None, Some(spec_entry_text(MenuEntry::Logout, categories, packages).1))
            == MenuStepView::Logout,
{
    reveal_strlit("category=");
    reveal_strlit("exit");
    let e = spec_category_exec(categories[k as int]);
    assert(e.take(9) =~= "category="@);
    assert(e.skip(9) =~= categories[k as int]);
    assert(!has_prefix("exit"@, "category="@));
}

} // verus!
