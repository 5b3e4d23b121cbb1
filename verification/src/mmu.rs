//! Sv39 address translation: the three-level page-table walk, with its permission
//! checks. Page tables live in guest RAM, so the walk is a pure function of `satp`,
//! the address, the kind of access and the memory's contents.

use vstd::prelude::*;
use crate::mem::{MemState, Memory};

pub mod pte;

verus! {

/// What an access is for; each kind needs its own page permission.
#[derive(Debug, Clone, Copy, PartialEq, Eq, Structural)]
pub enum Access {
    Fetch,
    Load,
    Store,
}

/// Translation of `va` failed: unmapped, malformed or not permitted.
#[derive(Debug, Clone, Copy, PartialEq, Eq, Structural)]
pub struct Fault {
    pub va: u64,
}

/// The `satp` mode field that selects Sv39; any other mode leaves addresses as they are.
pub const MODE_SV39: u64 = 8;

/// Bytes under one entry of level 0 (a page), 1 (2 MiB) or 2 (1 GiB).
pub open spec fn reach(level: int) -> int {
    if level == 0 {
        0x1000
    } else if level == 1 {
        0x20_0000
    } else {
        0x4000_0000
    }
}

/// Whether a leaf `entry` permits `access` from user or supervisor mode.
pub open spec fn permits(entry: u64, access: Access, user: bool, sum: bool) -> bool {
    let owner = if entry & pte::U != 0 {
        user || (sum && access != Access::Fetch)
    } else {
        !user
    };
    owner && match access {
        Access::Fetch => entry & pte::X != 0,
        Access::Load => entry & pte::R != 0,
        Access::Store => entry & pte::W != 0,
    }
}

/// The physical page number in an entry.
pub open spec fn ppn(entry: u64) -> int {
    entry as int / 0x400 % 0x1000_0000_0000
}

/// Walk from the table at physical page `table`, whose entries are of level `level`.
pub open spec fn walk(
    m: MemState,
    table: int,
    level: nat,
    va: u64,
    access: Access,
    user: bool,
    sum: bool,
) -> Option<u64>
    decreases level,
{
    let index = va as int / reach(level as int) % 0x200;
    match m.load((table * 0x1000 + index * 8) as u64, 8) {
        None => None,
        Some(raw) => {
            let entry = raw as u64;
            let leaf = entry & pte::R != 0 || entry & pte::X != 0;
            if entry & pte::V == 0 || (entry & pte::R == 0 && entry & pte::W != 0) {
                None
            } else if leaf {
                if ppn(entry) * 0x1000 % reach(level as int) != 0 || !permits(
                    entry,
                    access,
                    user,
                    sum,
                ) {
                    None
                } else {
                    Some((ppn(entry) * 0x1000 + va as int % reach(level as int)) as u64)
                }
            } else if level == 0 {
                None
            } else {
                walk(m, ppn(entry), (level - 1) as nat, va, access, user, sum)
            }
        },
    }
}

/// Whether bits 63:39 of `va` repeat bit 38, as Sv39 asks.
pub open spec fn canonical(va: u64) -> bool {
    va < 0x40_0000_0000 || va >= 0xffff_ffc0_0000_0000
}

/// The physical address of `va` under `satp`, or `None` where it faults.
#[verifier::opaque]
pub open spec fn translation(
    satp: u64,
    va: u64,
    access: Access,
    m: MemState,
    user: bool,
    sum: bool,
) -> Option<u64> {
    if satp / 0x1000_0000_0000_0000 != MODE_SV39 {
        Some(va)
    } else if !canonical(va) {
        None
    } else {
        walk(m, satp as int % 0x1000_0000_0000, 2, va, access, user, sum)
    }
}

/// Whether a leaf `entry` permits `access`.
fn is_permitted(entry: u64, access: Access, user: bool, sum: bool) -> (r: bool)
    ensures
        r == permits(entry, access, user, sum),
{
    let owner: bool = if entry & pte::U != 0 {
        user || (sum && access != Access::Fetch)
    } else {
        !user
    };
    owner && match access {
        Access::Fetch => entry & pte::X != 0,
        Access::Load => entry & pte::R != 0,
        Access::Store => entry & pte::W != 0,
    }
}

/// Translate a guest virtual address. With `satp` in bare mode the address is
/// physical already; in Sv39 mode the page tables in `ram` decide.
pub fn translate(
    satp: u64,
    va: u64,
    access: Access,
    ram: &Memory,
    user: bool,
    sum: bool,
) -> (r: Result<u64, Fault>)
    ensures
        match translation(satp, va, access, ram@, user, sum) {
            Some(pa) => r == Ok::<u64, Fault>(pa),
            None => r == Err::<u64, Fault>(Fault { va }),
        },
{
    proof {
        reveal(translation);
    }
    if satp / 0x1000_0000_0000_0000 != MODE_SV39 {
        return Ok(va);
    }
    if va >= 0x40_0000_0000 && va < 0xffff_ffc0_0000_0000 {
        return Err(Fault { va });
    }
    let mut table: u64 = satp % 0x1000_0000_0000;
    let mut level: u64 = 2;
    let mut span: u64 = 0x4000_0000;
    loop
        invariant
            level <= 2,
            span == reach(level as int),
            table < 0x1000_0000_0000,
            satp / 0x1000_0000_0000_0000 == MODE_SV39,
            canonical(va),
            translation(satp, va, access, ram@, user, sum) == walk(
                ram@,
                table as int,
                level as nat,
                va,
                access,
                user,
                sum,
            ),
        decreases level,
    {
        let index: u64 = va / span % 0x200;
        let entry: u64 = match ram.read_u64(table * 0x1000 + index * 8) {
            Ok(entry) => entry,
            Err(_) => {
                return Err(Fault { va });
            },
        };
        if entry & pte::V == 0 || (entry & pte::R == 0 && entry & pte::W != 0) {
            return Err(Fault { va });
        }
        let page: u64 = entry / 0x400 % 0x1000_0000_0000;
        if entry & pte::R != 0 || entry & pte::X != 0 {
            if page * 0x1000 % span != 0 || !is_permitted(entry, access, user, sum) {
                return Err(Fault { va });
            }
            return Ok(page * 0x1000 + va % span);
        }
        if level == 0 {
            return Err(Fault { va });
        }
        table = page;
        level = level - 1;
        span = span / 0x200;
    }
}

/// With `satp` in bare mode every address stands for itself, whatever RAM holds.
pub proof fn law_bare_mode_is_the_identity(
    satp: u64,
    va: u64,
    access: Access,
    m: MemState,
    user: bool,
    sum: bool,
)
    requires
        satp / 0x1000_0000_0000_0000 != MODE_SV39,
    ensures
        translation(satp, va, access, m, user, sum) == Some(va),
{
    reveal(translation);
}

/// Translation keeps the offset within a page.
pub proof fn law_translation_keeps_the_page_offset(
    satp: u64,
    va: u64,
    access: Access,
    m: MemState,
    user: bool,
    sum: bool,
)
    requires
        translation(satp, va, access, m, user, sum) is Some,
    ensures
        (translation(satp, va, access, m, user, sum)->0) % 0x1000 == va % 0x1000,
{
    reveal(translation);
    if satp / 0x1000_0000_0000_0000 == MODE_SV39 {
        lemma_walk_keeps_the_page_offset(
            m,
            satp as int % 0x1000_0000_0000,
            2,
            va,
            access,
            user,
            sum,
        );
    }
}

proof fn lemma_walk_keeps_the_page_offset(
    m: MemState,
    table: int,
    level: nat,
    va: u64,
    access: Access,
    user: bool,
    sum: bool,
)
    requires
        level <= 2,
        walk(m, table, level, va, access, user, sum) is Some,
    ensures
        (walk(m, table, level, va, access, user, sum)->0) % 0x1000 == va % 0x1000,
    decreases level,
{
    let index = va as int / reach(level as int) % 0x200;
    let entry = m.load((table * 0x1000 + index * 8) as u64, 8)->0 as u64;
    if entry & pte::R != 0 || entry & pte::X != 0 {
        let low = va as int % reach(level as int);
        assert(low % 0x1000 == va as int % 0x1000);
    } else {
        lemma_walk_keeps_the_page_offset(
            m,
            ppn(entry),
            (level - 1) as nat,
            va,
            access,
            user,
            sum,
        );
    }
}

/// The flag bits of an entry, as binary digits of it.
proof fn lemma_flags(e: u64)
    ensures
        (e & pte::V != 0) == (e % 2 == 1),
        (e & pte::R != 0) == (e / 2 % 2 == 1),
        (e & pte::W != 0) == (e / 4 % 2 == 1),
        (e & pte::X != 0) == (e / 8 % 2 == 1),
        (e & pte::U != 0) == (e / 16 % 2 == 1),
{
    assert((e & 1 != 0) == (e % 2 == 1) && (e & 2 != 0) == (e / 2 % 2 == 1) && (e & 4 != 0) == (e
        / 4 % 2 == 1) && (e & 8 != 0) == (e / 8 % 2 == 1) && (e & 0x10 != 0) == (e / 16 % 2 == 1))
        by (bit_vector);
}

/// A block is aligned to its size where the low digits of its page number are 0.
proof fn lemma_aligned(e: u64)
    ensures
        ({
            let page = e as int / 0x400 % 0x1000_0000_0000;
            &&& page * 0x1000 % 0x1000 == 0
            &&& (page * 0x1000 % 0x20_0000 == 0) == (e as int / 0x400 % 0x200 == 0)
            &&& (page * 0x1000 % 0x4000_0000 == 0) == (e as int / 0x400 % 0x4_0000 == 0)
        }),
{
    let n = e as int / 0x400;
    let page = n % 0x1000_0000_0000;
    assert(page % 0x200 == n % 0x200);
    assert(page % 0x4_0000 == n % 0x4_0000);
    assert(page * 0x1000 % 0x20_0000 == page % 0x200 * 0x1000);
    assert(page * 0x1000 % 0x4000_0000 == page % 0x4_0000 * 0x1000);
}

/// What an entry that is no pointer to another table gives: the block it maps, where the entry
/// is valid, the block is aligned to its size and the access is permitted.
proof fn lemma_leaf(
    m: MemState,
    table: int,
    level: nat,
    va: u64,
    access: Access,
    user: bool,
    sum: bool,
    e: u64,
)
    requires
        level <= 2,
        m.load((table * 0x1000 + va as int / reach(level as int) % 0x200 * 8) as u64, 8) == Some(
            e as nat,
        ),
        e % 0x10 != 1 || level == 0,
    ensures
        walk(m, table, level, va, access, user, sum) == if e % 2 == 1 && (match access {
            Access::Load => e / 2 % 2 == 1,
            Access::Store => e / 4 % 2 == 1 && e / 2 % 2 == 1,
            Access::Fetch => e / 8 % 2 == 1 && (e / 4 % 2 == 0 || e / 2 % 2 == 1),
        }) && (if e / 16 % 2 == 1 {
            user || (sum && access != Access::Fetch)
        } else {
            !user
        }) && e as int / 0x400 % 0x1000_0000_0000 * 0x1000 % reach(level as int) == 0 {
            Some(
                (e as int / 0x400 % 0x1000_0000_0000 * 0x1000 + va as int % reach(
                    level as int,
                )) as u64,
            )
        } else {
            None
        },
{
    lemma_flags(e);
}

proof fn lemma_pointer(
    m: MemState,
    table: int,
    level: nat,
    va: u64,
    access: Access,
    user: bool,
    sum: bool,
    e: u64,
)
    requires
        0 < level <= 2,
        m.load((table * 0x1000 + va as int / reach(level as int) % 0x200 * 8) as u64, 8) == Some(
            e as nat,
        ),
        e % 0x10 == 1,
    ensures
        walk(m, table, level, va, access, user, sum) == walk(
            m,
            e as int / 0x400 % 0x1000_0000_0000,
            (level - 1) as nat,
            va,
            access,
            user,
            sum,
        ),
{
    lemma_flags(e);
}

/// An address whose root entry points to a second table, whose entry there points to a third, is
/// in the page that the entry of the third table maps, at the same offset, if that entry is
/// valid and permits the access, and is not mapped otherwise. A page of the user is open to the
/// user, and to a supervisor that may access user memory, but not for fetching; any other is
/// open to the supervisor alone.
pub proof fn law_three_tables_lead_to_a_page(
    satp: u64,
    va: u64,
    access: Access,
    m: MemState,
    user: bool,
    sum: bool,
    root: u64,
    middle: u64,
    last: u64,
)
    requires
        satp as int / 0x1000_0000_0000_0000 == 8,
        va < 0x40_0000_0000 || va >= 0xffff_ffc0_0000_0000,
        m.load(
            (satp as int % 0x1000_0000_0000 * 0x1000 + va as int / 0x4000_0000 % 0x200 * 8) as u64,
            8,
        ) == Some(root as nat),
        root % 0x10 == 1,
        m.load(
            (root as int / 0x400 % 0x1000_0000_0000 * 0x1000 + va as int / 0x20_0000 % 0x200 * 8) as u64,
            8,
        ) == Some(middle as nat),
        middle % 0x10 == 1,
        m.load(
            (middle as int / 0x400 % 0x1000_0000_0000 * 0x1000 + va as int / 0x1000 % 0x200 * 8) as u64,
            8,
        ) == Some(last as nat),
    ensures
        translation(satp, va, access, m, user, sum) == if last % 2 == 1 && (match access {
            Access::Load => last / 2 % 2 == 1,
            Access::Store => last / 4 % 2 == 1 && last / 2 % 2 == 1,
            Access::Fetch => last / 8 % 2 == 1 && (last / 4 % 2 == 0 || last / 2 % 2 == 1),
        }) && (if last / 16 % 2 == 1 {
            user || (sum && access != Access::Fetch)
        } else {
            !user
        }) {
            Some((last as int / 0x400 % 0x1000_0000_0000 * 0x1000 + va as int % 0x1000) as u64)
        } else {
            None
        },
{
    reveal(translation);
    let table = satp as int % 0x1000_0000_0000;
    lemma_pointer(m, table, 2, va, access, user, sum, root);
    let second = root as int / 0x400 % 0x1000_0000_0000;
    lemma_pointer(m, second, 1, va, access, user, sum, middle);
    let third = middle as int / 0x400 % 0x1000_0000_0000;
    lemma_leaf(m, third, 0, va, access, user, sum, last);
    lemma_aligned(last);
}

/// An address whose root entry points to a second table, whose entry there is no pointer, is in
/// the 2 MiB page that this entry maps, if it is valid, permits the access and is aligned.
pub proof fn law_two_tables_lead_to_a_large_page(
    satp: u64,
    va: u64,
    access: Access,
    m: MemState,
    user: bool,
    sum: bool,
    root: u64,
    middle: u64,
)
    requires
        satp as int / 0x1000_0000_0000_0000 == 8,
        va < 0x40_0000_0000 || va >= 0xffff_ffc0_0000_0000,
        m.load(
            (satp as int % 0x1000_0000_0000 * 0x1000 + va as int / 0x4000_0000 % 0x200 * 8) as u64,
            8,
        ) == Some(root as nat),
        root % 0x10 == 1,
        m.load(
            (root as int / 0x400 % 0x1000_0000_0000 * 0x1000 + va as int / 0x20_0000 % 0x200 * 8) as u64,
            8,
        ) == Some(middle as nat),
        middle % 0x10 != 1,
    ensures
        translation(satp, va, access, m, user, sum) == if middle % 2 == 1 && (match access {
            Access::Load => middle / 2 % 2 == 1,
            Access::Store => middle / 4 % 2 == 1 && middle / 2 % 2 == 1,
            Access::Fetch => middle / 8 % 2 == 1 && (middle / 4 % 2 == 0 || middle / 2 % 2 == 1),
        }) && (if middle / 16 % 2 == 1 {
            user || (sum && access != Access::Fetch)
        } else {
            !user
        }) && middle as int / 0x400 % 0x200 == 0 {
            Some((middle as int / 0x400 % 0x1000_0000_0000 * 0x1000 + va as int % 0x20_0000) as u64)
        } else {
            None
        },
{
    reveal(translation);
    let table = satp as int % 0x1000_0000_0000;
    lemma_pointer(m, table, 2, va, access, user, sum, root);
    let second = root as int / 0x400 % 0x1000_0000_0000;
    lemma_leaf(m, second, 1, va, access, user, sum, middle);
    lemma_aligned(middle);
}

/// An address whose root entry is no pointer is in the 1 GiB page that this entry maps, if it is
/// valid, permits the access and is aligned.
pub proof fn law_the_root_leads_to_a_huge_page(
    satp: u64,
    va: u64,
    access: Access,
    m: MemState,
    user: bool,
    sum: bool,
    root: u64,
)
    requires
        satp as int / 0x1000_0000_0000_0000 == 8,
        va < 0x40_0000_0000 || va >= 0xffff_ffc0_0000_0000,
        m.load(
            (satp as int % 0x1000_0000_0000 * 0x1000 + va as int / 0x4000_0000 % 0x200 * 8) as u64,
            8,
        ) == Some(root as nat),
        root % 0x10 != 1,
    ensures
        translation(satp, va, access, m, user, sum) == if root % 2 == 1 && (match access {
            Access::Load => root / 2 % 2 == 1,
            Access::Store => root / 4 % 2 == 1 && root / 2 % 2 == 1,
            Access::Fetch => root / 8 % 2 == 1 && (root / 4 % 2 == 0 || root / 2 % 2 == 1),
        }) && (if root / 16 % 2 == 1 {
            user || (sum && access != Access::Fetch)
        } else {
            !user
        }) && root as int / 0x400 % 0x4_0000 == 0 {
            Some((root as int / 0x400 % 0x1000_0000_0000 * 0x1000 + va as int % 0x4000_0000) as u64)
        } else {
            None
        },
{
    reveal(translation);
    let table = satp as int % 0x1000_0000_0000;
    lemma_leaf(m, table, 2, va, access, user, sum, root);
    lemma_aligned(root);
}

/// An address that does not repeat its bit 38 upward is mapped nowhere, nor is one for which a
/// table that the walk comes to is not in RAM.
pub proof fn law_what_no_table_holds_is_not_mapped(
    satp: u64,
    va: u64,
    access: Access,
    m: MemState,
    user: bool,
    sum: bool,
    root: u64,
    middle: u64,
)
    requires
        satp as int / 0x1000_0000_0000_0000 == 8,
        ({
            let at_root = m.load(
                (satp as int % 0x1000_0000_0000 * 0x1000 + va as int / 0x4000_0000 % 0x200
                    * 8) as u64,
                8,
            );
            let at_middle = m.load(
                (root as int / 0x400 % 0x1000_0000_0000 * 0x1000 + va as int / 0x20_0000 % 0x200
                    * 8) as u64,
                8,
            );
            let at_last = m.load(
                (middle as int / 0x400 % 0x1000_0000_0000 * 0x1000 + va as int / 0x1000 % 0x200
                    * 8) as u64,
                8,
            );
            ||| 0x40_0000_0000 <= va < 0xffff_ffc0_0000_0000
            ||| at_root is None
            ||| at_root == Some(root as nat) && root % 0x10 == 1 && at_middle is None
            ||| at_root == Some(root as nat) && root % 0x10 == 1 && at_middle == Some(
                middle as nat,
            ) && middle % 0x10 == 1 && at_last is None
        }),
    ensures
        translation(satp, va, access, m, user, sum) is None,
{
    reveal(translation);
    lemma_flags(root);
    lemma_flags(middle);
    reveal_with_fuel(walk, 3);
}

} // verus!
