//! Looking up the creature names that spawn areas place at a map position.
use vstd::prelude::*;

verus! {

/// A spawn area: its center, its radius, and its entries, each a creature
/// name with its offset from the center.
#[derive(Debug, Clone)]
pub struct SpawnAreaPayload {
    pub x: i64,
    pub y: i64,
    pub z: i64,
    pub radius: i64,
    pub entries: Vec<(String, i64, i64)>,
}

/// The names of the entries placed at offset `(dx, dy)`, in entry order.
pub open spec fn names_at_offset(entries: Seq<(String, i64, i64)>, dx: int, dy: int) -> Seq<
    Seq<char>,
>
    decreases entries.len(),
{
    if entries.len() == 0 {
        Seq::empty()
    } else {
        let prev = names_at_offset(entries.drop_last(), dx, dy);
        let e = entries.last();
        if e.1 == dx && e.2 == dy {
            prev.push(e.0@)
        } else {
            prev
        }
    }
}

/// Whether `(x, y, z)` lies on the area's floor, within its radius (a
/// negative radius counts as zero) in both axes.
pub open spec fn area_covers(area: SpawnAreaPayload, x: int, y: int, z: int) -> bool {
    let r = if area.radius < 0 {
        0
    } else {
        area.radius as int
    };
    let dx = x - area.x;
    let dy = y - area.y;
    area.z == z && -r <= dx <= r && -r <= dy <= r
}

/// The names an area places at `(x, y, z)`: none where it does not cover it.
pub open spec fn area_names(area: SpawnAreaPayload, x: int, y: int, z: int) -> Seq<Seq<char>> {
    if area_covers(area, x, y, z) {
        names_at_offset(area.entries@, x - area.x, y - area.y)
    } else {
        Seq::empty()
    }
}

/// The names at `(x, y, z)` given by the first area, in order, that places
/// any there; empty when none does.
pub open spec fn spawn_names(areas: Seq<SpawnAreaPayload>, x: int, y: int, z: int) -> Seq<
    Seq<char>,
>
    decreases areas.len(),
{
    if areas.len() == 0 {
        Seq::empty()
    } else if area_names(areas[0], x, y, z).len() > 0 {
        area_names(areas[0], x, y, z)
    } else {
        spawn_names(areas.drop_first(), x, y, z)
    }
}

/// The names of the spawn entries at the cursor position `(x, y, z)`, taken
/// from the first area in `payload` that holds any there.
pub fn compute_spawn_entry_names(payload: &[SpawnAreaPayload], x: i64, y: i64, z: i64) -> (names:
    Vec<String>)
    ensures
        names@.map_values(|s: String| s@) == spawn_names(payload@, x as int, y as int, z as int),
{
    let ghost areas = payload@;
    let mut names: Vec<String> = Vec::new();
    let mut i: usize = 0;
    assert(areas.subrange(0, areas.len() as int) =~= areas);
    while i < payload.len()
        invariant
            areas == payload@,
            i <= areas.len(),
            names@.len() == 0,
            spawn_names(areas, x as int, y as int, z as int) == spawn_names(
                areas.subrange(i as int, areas.len() as int),
                x as int,
                y as int,
                z as int,
            ),
        decreases payload.len() - i,
    {
        let area = &payload[i];
        proof {
            let rest = areas.subrange(i as int, areas.len() as int);
            assert(rest[0] == *area);
            assert(rest.drop_first() =~= areas.subrange(i + 1, areas.len() as int));
        }
        let dx: i128 = x as i128 - area.x as i128;
        let dy: i128 = y as i128 - area.y as i128;
        let radius: i128 = if area.radius < 0 {
            0
        } else {
            area.radius as i128
        };
        let out_of_reach = dx < -radius || dx > radius || dy < -radius || dy > radius;
        if area.z == z && !out_of_reach {
            let mut j: usize = 0;
            while j < area.entries.len()
                invariant
                    j <= area.entries@.len(),
                    names@.map_values(|s: String| s@) == names_at_offset(
                        area.entries@.subrange(0, j as int),
                        dx as int,
                        dy as int,
                    ),
                decreases area.entries.len() - j,
            {
                let entry = &area.entries[j];
                let ghost before = names@;
                if entry.1 as i128 == dx && entry.2 as i128 == dy {
                    names.push(entry.0.clone());
                }
                proof {
                    let next = area.entries@.subrange(0, j + 1);
                    assert(next.drop_last() =~= area.entries@.subrange(0, j as int));
                    assert(names@.map_values(|s: String| s@) =~= names_at_offset(
                        next,
                        dx as int,
                        dy as int,
                    ));
                }
                j += 1;
            }
            proof {
                assert(area.entries@.subrange(0, area.entries@.len() as int) =~= area.entries@);
            }
            if names.len() > 0 {
                return names;
            }
        }
        i += 1;
    }
    names
}

} // verus!
