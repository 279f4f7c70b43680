//! Splitting the matched files into contiguous groups of bounded size.

use vstd::prelude::*;
use vstd::arithmetic::div_mod::lemma_fundamental_div_mod_converse;
use crate::entry::FileEntry;
use crate::error::PackError;

verus! {

/// Number of groups that `n` items fill when each group takes up to `k`:
/// `n / k`, rounded up.
pub open spec fn group_count(n: nat, k: nat) -> nat {
    if k == 0 {
        0
    } else {
        ((n + k - 1) / (k as int)) as nat
    }
}

/// Number of items in group `i`: `k`, or what is left for the last group.
pub open spec fn group_len(n: nat, k: nat, i: int) -> nat {
    if n - i * k < k {
        (n - i * k) as nat
    } else {
        k
    }
}

/// The groups of `items`: group `i` holds the items from position `i * k`
/// on, `group_len` of them.
pub open spec fn groups_of<T>(items: Seq<T>, k: nat) -> Seq<Seq<T>> {
    Seq::new(
        group_count(items.len(), k),
        |i: int| items.subrange(i * k, i * k + group_len(items.len(), k, i)),
    )
}

/// The groups held by nested vectors, as sequences.
pub open spec fn nested_view<T>(groups: Seq<Vec<T>>) -> Seq<Seq<T>> {
    Seq::new(groups.len(), |i: int| groups[i]@)
}

/// A count `g` of groups that covers `n` items with no group to spare is
/// the rounded-up quotient.
pub proof fn lemma_group_count_unique(n: nat, k: nat, g: nat)
    requires
        k > 0,
        g * k >= n,
        g > 0 ==> (g - 1) * k < n,
    ensures
        g == group_count(n, k),
{
    let x = n + k - 1;
    let r = x - g * k;
    assert((g - 1) * k == g * k - k) by (nonlinear_arith);
    assert(0 <= r < k);
    lemma_fundamental_div_mod_converse(x, k as int, g as int, r);
}

/// The group count is the least number of groups of `k` that cover `n`.
pub proof fn lemma_group_count_is_ceiling(n: nat, k: nat)
    requires
        k > 0,
    ensures
        group_count(n, k) * k >= n,
        group_count(n, k) > 0 ==> (group_count(n, k) - 1) * k < n,
        n == 0 <==> group_count(n, k) == 0,
{
    let x = n + k - 1;
    let g = group_count(n, k);
    vstd::arithmetic::div_mod::lemma_fundamental_div_mod(x, k as int);
    vstd::arithmetic::div_mod::lemma_mod_bound(x, k as int);
    vstd::arithmetic::div_mod::lemma_div_pos_is_pos(x, k as int);
    assert(x == k * (x / (k as int)) + x % (k as int));
    assert(k * (x / (k as int)) == g * k) by (nonlinear_arith)
        requires
            g == x / (k as int),
    ;
    assert((g - 1) * k == g * k - k) by (nonlinear_arith);
    if n == 0 {
        vstd::arithmetic::div_mod::lemma_basic_div(x, k as int);
    }
}

/// Every group but the last is full, the last holds the remainder, and
/// each group lies inside the list.
pub proof fn lemma_group_bounds(n: nat, k: nat, i: int)
    requires
        k > 0,
        0 <= i < group_count(n, k),
    ensures
        0 <= i * k < n,
        0 < group_len(n, k, i) <= k,
        i * k + group_len(n, k, i) <= n,
        i + 1 < group_count(n, k) ==> group_len(n, k, i) == k,
        i + 1 == group_count(n, k) ==> i * k + group_len(n, k, i) == n,
{
    lemma_group_count_is_ceiling(n, k);
    let g = group_count(n, k) as int;
    assert(0 <= i * k) by (nonlinear_arith)
        requires
            0 <= i,
            k > 0,
    ;
    assert(i * k <= (g - 1) * k) by (nonlinear_arith)
        requires
            i <= g - 1,
            k > 0,
    ;
    if i + 1 < g {
        assert(i * k + k <= (g - 1) * k) by (nonlinear_arith)
            requires
                i + 1 <= g - 1,
                k > 0,
        ;
    } else {
        assert(i * k == (g - 1) * k);
        assert(g * k == (g - 1) * k + k) by (nonlinear_arith);
    }
}

/// The slot `j` of group `i` is the position `i * k + j` of the list, and
/// dividing that position by `k` gives the slot back.
pub proof fn lemma_position_of_slot(n: nat, k: nat, i: int, j: int)
    requires
        k > 0,
        0 <= i < group_count(n, k),
        0 <= j < group_len(n, k, i),
    ensures
        0 <= i * k + j < n,
        (i * k + j) / (k as int) == i,
        (i * k + j) % (k as int) == j,
{
    lemma_group_bounds(n, k, i);
    lemma_fundamental_div_mod_converse(i * k + j, k as int, i, j);
}

/// Every position of the list lies in exactly one slot: position `m` is
/// slot `m % k` of group `m / k`.
pub proof fn lemma_slot_of_position(n: nat, k: nat, m: int)
    requires
        k > 0,
        0 <= m < n,
    ensures
        0 <= m / (k as int) < group_count(n, k),
        0 <= m % (k as int) < group_len(n, k, m / (k as int)),
        (m / (k as int)) * k + m % (k as int) == m,
{
    let g = m / (k as int);
    let r = m % (k as int);
    vstd::arithmetic::div_mod::lemma_fundamental_div_mod(m, k as int);
    vstd::arithmetic::div_mod::lemma_mod_bound(m, k as int);
    vstd::arithmetic::div_mod::lemma_div_pos_is_pos(m, k as int);
    assert(k * g == g * k) by (nonlinear_arith);
    lemma_group_count_is_ceiling(n, k);
    let c = group_count(n, k) as int;
    if g >= c {
        assert(g * k >= c * k) by (nonlinear_arith)
            requires
                g >= c,
                k > 0,
        ;
    }
}

/// The sizes of the groups: there are `n / k` of them, rounded up, and
/// group `i` holds `k` items or, if fewer are left, the `n - i * k` that
/// remain.
pub proof fn lemma_group_sizes<T>(items: Seq<T>, k: nat)
    requires
        k > 0,
    ensures
        groups_of(items, k).len() == group_count(items.len(), k),
        group_count(items.len(), k) * k >= items.len(),
        group_count(items.len(), k) > 0 ==> (group_count(items.len(), k) - 1) * k < items.len(),
        forall|i: int|
            0 <= i < group_count(items.len(), k) ==> (#[trigger] groups_of(items, k)[i]).len()
                == vstd::math::min(k as int, items.len() - i * k),
{
    lemma_group_count_is_ceiling(items.len(), k);
    assert forall|i: int| 0 <= i < group_count(items.len(), k) implies (#[trigger] groups_of(
        items,
        k,
    )[i]).len() == vstd::math::min(k as int, items.len() - i * k) by {
        lemma_group_bounds(items.len(), k, i);
    }
}

/// Items keep their place: the item at position `m` of the list is the
/// item at slot `m % k` of group `m / k`.
pub proof fn lemma_groups_keep_items<T>(items: Seq<T>, k: nat, m: int)
    requires
        k > 0,
        0 <= m < items.len(),
    ensures
        0 <= m / (k as int) < groups_of(items, k).len(),
        0 <= m % (k as int) < groups_of(items, k)[m / (k as int)].len(),
        groups_of(items, k)[m / (k as int)][m % (k as int)] == items[m],
{
    lemma_slot_of_position(items.len(), k, m);
    lemma_group_bounds(items.len(), k, m / (k as int));
}

/// The first `g` groups, one after the other, are the start of the list.
proof fn lemma_prefix_flatten<T>(items: Seq<T>, k: nat, g: nat)
    requires
        k > 0,
        g <= group_count(items.len(), k),
    ensures
        groups_of(items, k).take(g as int).flatten() == items.take(
            if g < group_count(items.len(), k) {
                (g * k) as int
            } else {
                items.len() as int
            },
        ),
    decreases g,
{
    let groups = groups_of(items, k);
    let n = items.len();
    if g == 0 {
        assert(groups.take(0) =~= Seq::<Seq<T>>::empty());
        assert((0 as nat) * k == 0) by (nonlinear_arith);
        lemma_group_count_is_ceiling(n, k);
        assert(groups.take(0).flatten() =~= items.take(0));
    } else {
        let h = (g - 1) as nat;
        lemma_prefix_flatten(items, k, h);
        lemma_group_bounds(n, k, h as int);
        assert(groups.take(g as int) =~= groups.take(h as int).push(groups[h as int]));
        groups.take(h as int).lemma_flatten_push(groups[h as int]);
        assert((h + 1) * k == h * k + k) by (nonlinear_arith);
        let end: int = if g < group_count(n, k) {
            (g * k) as int
        } else {
            n as int
        };
        assert(h * k + group_len(n, k, h as int) == end);
        let cut = (h * k) as int;
        assert(items.take(cut) + items.subrange(cut, end) =~= items.take(end));
    }
}

/// Nothing is lost, repeated or moved: the groups, one after the other,
/// are the list.
pub proof fn lemma_groups_flatten<T>(items: Seq<T>, k: nat)
    requires
        k > 0,
    ensures
        groups_of(items, k).flatten() == items,
{
    let groups = groups_of(items, k);
    lemma_prefix_flatten(items, k, groups.len());
    assert(groups.take(groups.len() as int) =~= groups);
    assert(items.take(items.len() as int) =~= items);
}

/// Without items there are no groups.
pub proof fn lemma_no_items_no_groups<T>(items: Seq<T>, k: nat)
    requires
        k > 0,
        items.len() == 0,
    ensures
        groups_of(items, k) == Seq::<Seq<T>>::empty(),
{
    lemma_group_count_is_ceiling(0, k);
    assert(groups_of(items, k) =~= Seq::<Seq<T>>::empty());
}

/// The group size that a request stands for. Only a positive number is a
/// size; zero and negative numbers are refused.
pub fn chunk_size(requested: i32) -> (res: Result<usize, PackError>)
    ensures
        requested <= 0 ==> res == Err::<usize, PackError>(PackError::InvalidChunkSize),
        requested > 0 ==> res == Ok::<usize, PackError>(requested as usize),
{
    if requested <= 0 {
        Err(PackError::InvalidChunkSize)
    } else {
        Ok(requested as usize)
    }
}

/// Splits `files` into consecutive groups of `file_count` entries; the last
/// group holds what is left. Order is kept, and nothing is left out or
/// taken twice. A `file_count` of zero is refused.
pub fn divide_files(files: Vec<FileEntry>, file_count: usize) -> (res: Result<
    Vec<Vec<FileEntry>>,
    PackError,
>)
    ensures
        file_count == 0 ==> res == Err::<Vec<Vec<FileEntry>>, PackError>(
            PackError::InvalidChunkSize,
        ),
        file_count > 0 ==> res is Ok && nested_view(res->Ok_0@) == groups_of(
            files@,
            file_count as nat,
        ),
{
    if file_count == 0 {
        return Err(PackError::InvalidChunkSize);
    }
    let n = files.len();
    let ghost k = file_count as nat;
    let mut groups: Vec<Vec<FileEntry>> = Vec::new();
    let mut start: usize = 0;
    assert(groups.len() * k == 0) by (nonlinear_arith)
        requires
            groups.len() == 0,
    ;
    while start < n
        invariant
            n == files.len(),
            k == file_count,
            k > 0,
            start <= n,
            start < n ==> start == groups.len() * k,
            start == n ==> groups.len() * k >= n,
            groups.len() > 0 ==> (groups.len() - 1) * k < n,
            groups.len() <= group_count(n as nat, k),
            forall|i: int|
                0 <= i < groups.len() ==> #[trigger] groups[i]@ == groups_of(files@, k)[i],
        decreases n - start,
    {
        let ghost g = groups.len() as int;
        proof {
            assert((g + 1) * k == g * k + k) by (nonlinear_arith);
            if g >= group_count(n as nat, k) {
                lemma_group_count_is_ceiling(n as nat, k);
                assert(g * k >= group_count(n as nat, k) * k) by (nonlinear_arith)
                    requires
                        g >= group_count(n as nat, k),
                        k > 0,
                ;
            }
            lemma_group_bounds(n as nat, k, g);
        }
        let len: usize = if n - start < file_count {
            n - start
        } else {
            file_count
        };
        assert(len == group_len(n as nat, k, g));
        let mut group: Vec<FileEntry> = Vec::new();
        let mut taken: usize = 0;
        while taken < len
            invariant
                n == files.len(),
                taken <= len,
                start + len <= n,
                group@ == files@.subrange(start as int, start + taken),
            decreases len - taken,
        {
            group.push(files[start + taken].duplicate());
            taken = taken + 1;
            assert(group@ == files@.subrange(start as int, start + taken));
        }
        groups.push(group);
        start = start + len;
    }
    proof {
        lemma_group_count_unique(n as nat, k, groups.len() as nat);
        assert(nested_view(groups@) =~= groups_of(files@, k));
    }
    Ok(groups)
}

} // verus!
