use crate::coordinate::{Coordinate, COORD_LIMIT};
use crate::errors::RouteError;
use crate::graph::Graph;
use crate::kdtree::{all_in_range, KdTree};
use std::collections::HashMap;
use vstd::prelude::*;

verus! {

broadcast use vstd::std_specs::hash::group_hash_axioms;

/// An ASCII decimal digit.
pub open spec fn is_digit(b: u8) -> bool {
    48 <= b <= 57
}

/// The value of a digit string read in base ten.
pub open spec fn digits_value(s: Seq<u8>) -> int
    decreases s.len(),
{
    if s.len() == 0 {
        0
    } else {
        digits_value(s.drop_last()) * 10 + (s.last() - 48)
    }
}

/// Parses the digit run `v[start..end]` as an unsigned number. Succeeds
/// exactly on non-empty all-digit runs whose value fits, and then returns
/// precisely the base-ten value of the digits.
pub fn parse_unsigned(v: &Vec<u8>, start: usize, end: usize) -> (r: Result<u64, RouteError>)
    requires
        start <= end <= v@.len(),
    ensures
        r is Ok ==> {
            &&& end > start
            &&& forall|x: int| start <= x < end ==> is_digit(#[trigger] v@[x])
            &&& r->Ok_0 == digits_value(v@.subrange(start as int, end as int))
        },
        r is Err ==> r->Err_0 == RouteError::InvalidInput,
    {
    if start == end {
        return Err(RouteError::InvalidInput);
    }
    let mut acc: u64 = 0;
    let mut i = start;
    while i < end
        invariant
            start <= i <= end <= v@.len(),
            forall|x: int| start <= x < i ==> is_digit(#[trigger] v@[x]),
            acc == digits_value(v@.subrange(start as int, i as int)),
            acc <= 0xFFFF_FFFF_FFFF_FFFF,
        decreases end - i,
    {
        let b = v[i];
        if b < 48 || b > 57 {
            return Err(RouteError::InvalidInput);
        }
        let d = (b - 48) as u64;
        if acc > (u64::MAX - d) / 10 {
            return Err(RouteError::InvalidInput);
        }
        acc = acc * 10 + d;
        proof {
            assert(v@.subrange(start as int, i + 1).drop_last() =~= v@.subrange(
                start as int,
                i as int,
            ));
            assert(v@.subrange(start as int, i + 1).last() == v@[i as int]);
        }
        i = i + 1;
    }
    proof {
        assert(v@.subrange(start as int, end as int) =~= v@.subrange(start as int, i as int));
    }
    Ok(acc)
}

/// Parses a (possibly signed, possibly fractional) decimal coordinate token
/// into microdegrees, keeping at most six fraction digits. Succeeds only
/// when the result is inside the geographic range.
fn parse_micro(v: &Vec<u8>, start: usize, end: usize) -> (r: Result<i64, RouteError>)
    requires
        start <= end <= v@.len(),
    ensures
        r is Ok ==> -COORD_LIMIT <= r->Ok_0 <= COORD_LIMIT,
        r is Err ==> r->Err_0 == RouteError::InvalidInput,
{
    let mut i = start;
    let mut negative = false;
    if i < end && v[i] == 45 {
        negative = true;
        i = i + 1;
    }
    let mut dot: usize = end;
    let mut j = i;
    while j < end
        invariant
            i <= j <= end <= v@.len(),
            i <= dot <= end,
        decreases end - j,
    {
        if v[j] == 46 {
            dot = j;
            break ;
        }
        j = j + 1;
    }
    let whole = match parse_unsigned(v, i, dot) {
        Ok(x) => x,
        Err(e) => {
            return Err(e);
        },
    };
    if whole > 1_000 {
        return Err(RouteError::InvalidInput);
    }
    let mut frac: u64 = 0;
    let mut scale: u64 = 1_000_000;
    if dot < end {
        let mut k = dot + 1;
        if k == end {
            return Err(RouteError::InvalidInput);
        }
        while k < end && scale > 1
            invariant
                dot < k <= end <= v@.len(),
                scale == 1 || scale == 10 || scale == 100 || scale == 1_000 || scale == 10_000
                    || scale == 100_000 || scale == 1_000_000,
                frac * scale < 1_000_000,
            decreases end - k,
        {
            let b = v[k];
            if b < 48 || b > 57 {
                return Err(RouteError::InvalidInput);
            }
            let d = (b - 48) as u64;
            proof {
                assert(frac <= 99_999 && (frac * 10 + d) * (scale / 10) < 1_000_000)
                    by (nonlinear_arith)
                    requires
                        frac * scale < 1_000_000 && d <= 9 && (scale == 10 || scale == 100 || scale
                            == 1_000 || scale == 10_000 || scale == 100_000 || scale
                            == 1_000_000),
                ;
            }
            frac = frac * 10 + d;
            scale = scale / 10;
            k = k + 1;
        }
        // Remaining fraction digits beyond the sixth are ignored, but must
        // still be digits.
        while k < end
            invariant
                k <= end <= v@.len(),
            decreases end - k,
        {
            let b = v[k];
            if b < 48 || b > 57 {
                return Err(RouteError::InvalidInput);
            }
            k = k + 1;
        }
    }
    proof {
        assert(frac * scale < 1_000_000) by (nonlinear_arith)
            requires
                frac * scale < 1_000_000 || frac == 0,
        ;
    }
    let micro_unsigned: u64 = whole * 1_000_000 + frac * scale;
    if micro_unsigned > COORD_LIMIT as u64 {
        return Err(RouteError::InvalidInput);
    }
    let magnitude = micro_unsigned as i64;
    if negative {
        Ok(-magnitude)
    } else {
        Ok(magnitude)
    }
}

/// The next whitespace-separated token inside `[from, eol)`.
fn next_token(v: &Vec<u8>, from: usize, eol: usize) -> (r: (usize, usize))
    requires
        from <= eol <= v@.len(),
    ensures
        from <= r.0 <= r.1 <= eol,
{
    let s0 = skip_blanks(v, from);
    let s = if s0 < eol {
        s0
    } else {
        eol
    };
    let e0 = token_end(v, s);
    let e = if e0 < eol {
        e0
    } else {
        eol
    };
    (s, e)
}

/// The end of the token starting at `start`: the first space or line end.
fn token_end(v: &Vec<u8>, start: usize) -> (r: usize)
    requires
        start <= v@.len(),
    ensures
        start <= r <= v@.len(),
{
    let mut i = start;
    while i < v.len()
        invariant
            start <= i <= v@.len(),
        decreases v@.len() - i,
    {
        let b = v[i];
        if b == 32 || b == 9 || b == 13 || b == 10 {
            return i;
        }
        i = i + 1;
    }
    i
}

/// The first non-blank position at or after `start`, staying on the line.
fn skip_blanks(v: &Vec<u8>, start: usize) -> (r: usize)
    requires
        start <= v@.len(),
    ensures
        start <= r <= v@.len(),
{
    let mut i = start;
    while i < v.len()
        invariant
            start <= i <= v@.len(),
        decreases v@.len() - i,
    {
        let b = v[i];
        if b != 32 && b != 9 && b != 13 {
            return i;
        }
        i = i + 1;
    }
    i
}

/// The position just after the current line's newline, or the end.
fn line_end(v: &Vec<u8>, start: usize) -> (r: (usize, usize))
    requires
        start <= v@.len(),
    ensures
        start <= r.0 <= r.1 <= v@.len(),
        r.1 > start || r.1 == v@.len(),
{
    let mut i = start;
    while i < v.len()
        invariant
            start <= i <= v@.len(),
        decreases v@.len() - i,
    {
        if v[i] == 10 {
            return (i, i + 1);
        }
        i = i + 1;
    }
    (i, i)
}

/// The number of text lines, counted as the coordinate loader counts nodes.
pub fn count_lines(v: &Vec<u8>) -> (r: usize)
    ensures
        r <= v@.len(),
{
    let mut count: usize = 0;
    let mut pos: usize = 0;
    while pos < v.len()
        invariant
            pos <= v@.len(),
            count <= pos,
        decreases v@.len() - pos,
    {
        let (_eol, next) = line_end(v, pos);
        count = count + 1;
        if next == pos {
            break ;
        }
        pos = next;
    }
    count
}

/// Builds the road graph from the raw coordinate and arc texts: one node
/// per coordinate line, one arc per `source destination weight` line.
/// Fails with `InvalidInput` on a malformed arc line or an out-of-range
/// node identity, instead of indexing out of bounds.
pub fn create_adjacency_list_from_text(coordinates: &Vec<u8>, arcs: &Vec<u8>) -> (r: Result<
    Graph,
    RouteError,
>)
    ensures
        r is Ok ==> r->Ok_0.well_formed(),
        r is Err ==> r->Err_0 == RouteError::InvalidInput,
{
    let num_of_nodes = count_lines(coordinates);
    let mut g = Graph::new(num_of_nodes);
    let mut pos: usize = 0;
    while pos < arcs.len()
        invariant
            g.well_formed(),
            g.n() == num_of_nodes,
            pos <= arcs@.len(),
        decreases arcs@.len() - pos,
    {
        let (eol, next) = line_end(arcs, pos);
        let (s0, e0) = next_token(arcs, pos, eol);
        if s0 < eol {
            let source = match parse_unsigned(arcs, s0, e0) {
                Ok(x) => x,
                Err(e) => {
                    return Err(e);
                },
            };
            let (s1, e1) = next_token(arcs, e0, eol);
            let destination = match parse_unsigned(arcs, s1, e1) {
                Ok(x) => x,
                Err(e) => {
                    return Err(e);
                },
            };
            let (s2, e2) = next_token(arcs, e1, eol);
            let weight = match parse_unsigned(arcs, s2, e2) {
                Ok(x) => x,
                Err(e) => {
                    return Err(e);
                },
            };
            if source >= num_of_nodes as u64 || destination >= num_of_nodes as u64 || weight
                > u32::MAX as u64 {
                return Err(RouteError::InvalidInput);
            }
            g.add_edge(source as usize, destination as usize, weight as u32);
        }
        if next == pos {
            break ;
        }
        pos = next;
    }
    Ok(g)
}

/// Parses one `id latitude longitude` line into a coordinate point.
fn parse_coordinate_line(v: &Vec<u8>, start: usize, eol: usize) -> (r: Result<
    Coordinate,
    RouteError,
>)
    requires
        start <= eol <= v@.len(),
    ensures
        r is Ok ==> r->Ok_0.in_range(),
        r is Err ==> r->Err_0 == RouteError::InvalidInput,
{
    let (s0, e0) = next_token(v, start, eol);
    let id = match parse_unsigned(v, s0, e0) {
        Ok(x) => x,
        Err(e) => {
            return Err(e);
        },
    };
    if id > usize::MAX as u64 {
        return Err(RouteError::InvalidInput);
    }
    let (s1, e1) = next_token(v, e0, eol);
    let lat = match parse_micro(v, s1, e1) {
        Ok(x) => x,
        Err(e) => {
            return Err(e);
        },
    };
    let (s2, e2) = next_token(v, e1, eol);
    let lng = match parse_micro(v, s2, e2) {
        Ok(x) => x,
        Err(e) => {
            return Err(e);
        },
    };
    Ok(Coordinate { lat, lng, id: id as usize })
}

/// Builds the identity-to-coordinate map from the raw coordinate text.
pub fn create_id_to_coordinates_from_text(coordinates: &Vec<u8>) -> (r: Result<
    HashMap<usize, Coordinate>,
    RouteError,
>)
    ensures
        r is Ok ==> forall|id: usize|
            r->Ok_0@.contains_key(id) ==> (#[trigger] r->Ok_0@[id]).in_range(),
        r is Err ==> r->Err_0 == RouteError::InvalidInput,
{
    let mut map: HashMap<usize, Coordinate> = HashMap::new();
    let mut pos: usize = 0;
    while pos < coordinates.len()
        invariant
            pos <= coordinates@.len(),
            forall|id: usize| map@.contains_key(id) ==> (#[trigger] map@[id]).in_range(),
        decreases coordinates@.len() - pos,
    {
        let (eol, next) = line_end(coordinates, pos);
        let s0 = skip_blanks(coordinates, pos);
        if s0 < eol {
            let c = match parse_coordinate_line(coordinates, pos, eol) {
                Ok(c) => c,
                Err(e) => {
                    return Err(e);
                },
            };
            map.insert(c.id, c);
        }
        if next == pos {
            break ;
        }
        pos = next;
    }
    Ok(map)
}

/// Builds the spatial index from the raw coordinate text. The loader's
/// column order puts the identity first, as the other loaders do.
pub fn create_kd_tree_from_text(coordinates: &Vec<u8>) -> (r: Result<KdTree, RouteError>)
    ensures
        r is Ok ==> r->Ok_0.wf(),
        r is Err ==> r->Err_0 == RouteError::InvalidInput,
{
    let mut points: Vec<Coordinate> = Vec::new();
    let mut pos: usize = 0;
    while pos < coordinates.len()
        invariant
            pos <= coordinates@.len(),
            all_in_range(points@),
        decreases coordinates@.len() - pos,
    {
        let (eol, next) = line_end(coordinates, pos);
        let s0 = skip_blanks(coordinates, pos);
        if s0 < eol {
            let c = match parse_coordinate_line(coordinates, pos, eol) {
                Ok(c) => c,
                Err(e) => {
                    return Err(e);
                },
            };
            let ghost old_points = points@;
            points.push(c);
            proof {
                assert forall|x: int| 0 <= x < points@.len() implies (
                #[trigger] points@[x]).in_range() by {
                    if x < old_points.len() {
                        assert(points@[x] == old_points[x]);
                    }
                }
            }
        }
        if next == pos {
            break ;
        }
        pos = next;
    }
    Ok(KdTree::new(points))
}

} // verus!
