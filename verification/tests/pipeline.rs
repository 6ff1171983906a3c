use ase2ttf_core::edge::get_edges;
use ase2ttf_core::edge::Edge;
use ase2ttf_core::edge::Point;
use ase2ttf_core::grid::group;
use ase2ttf_core::paths::edges_to_paths;
use ase2ttf_core::winding::point_in_polygon;
use ase2ttf_core::winding::resolve_winding;
use ase2ttf_core::winding::signed_area;

fn grid_of(art: &str) -> Vec<u8> {
    art.trim()
        .replace("\n", "")
        .as_bytes()
        .iter()
        .map(|x| if *x == b'#' { 1u8 } else { 0 })
        .collect()
}

fn pt(x: usize, y: usize) -> Point {
    Point { x, y }
}

#[test]
fn sandbox() {
    let src = "
--##--
-##---
##----
-##---
--##--
"
    .trim()
    .replace("\n", "");

    let grid: Vec<u8> = src
        .as_bytes()
        .iter()
        .map(|x| if *x == b'#' { 1.0f64 } else { 0.0 })
        .map(|w| if w > 0.0 { 1u8 } else { 0u8 })
        .collect();

    println!("Group:");
    println!("{:?}", group(&grid, 6, 5));

    let boundaries = get_edges(&grid, 5, 6);
    let all_edges: Vec<Edge> = boundaries.into_iter().flatten().collect();
    let paths = edges_to_paths(&all_edges);

    println!("Path:");
    println!("{:?}", paths);

    // Read 5 wide and 6 tall, the picture splits into four separate
    // regions, so four closed outer loops come out, every one wound
    // negatively.
    assert_eq!(paths.len(), 4);

    let areas: Vec<i128> = paths.iter().map(|p| signed_area(p)).collect();
    assert_eq!(areas.iter().filter(|&a| *a < 0).count(), 4);
    assert_eq!(areas.iter().filter(|&a| *a > 0).count(), 0);
}

#[test]
fn empty_grid_produces_no_paths() {
    let grid = vec![0u8; 16];
    let boundaries = get_edges(&grid, 4, 4);
    assert_eq!(boundaries.len(), 0);
    let paths = edges_to_paths(&Vec::new());
    assert_eq!(paths.len(), 0);
}

#[test]
fn zero_sized_grid_produces_no_regions() {
    let grid: Vec<u8> = Vec::new();
    assert_eq!(group(&grid, 0, 0).len(), 0);
    assert_eq!(get_edges(&grid, 0, 0).len(), 0);
}

#[test]
fn single_cell_gives_one_unit_square() {
    let grid = vec![255u8];
    let boundaries = get_edges(&grid, 1, 1);
    assert_eq!(boundaries.len(), 1);
    assert_eq!(boundaries[0].len(), 4);
    let paths = edges_to_paths(&boundaries[0]);
    assert_eq!(paths.len(), 1);
    let p = &paths[0];
    // a closed loop over the 4 corners of the unit square
    assert!(p.len() > 2);
    assert_eq!(p[0], p[p.len() - 1]);
    let mut corners: Vec<Point> = p[..p.len() - 1].to_vec();
    corners.sort_by_key(|q| (q.x, q.y));
    assert_eq!(corners, vec![pt(0, 0), pt(0, 1), pt(1, 0), pt(1, 1)]);
    // outer contour: even nesting, negative signed area
    assert!(signed_area(p) < 0);
    assert_eq!(signed_area(p), -2);
}

#[test]
fn single_cell_in_larger_grid() {
    let grid = grid_of(
        "
---
-#-
---
",
    );
    let boundaries = get_edges(&grid, 3, 3);
    assert_eq!(boundaries.len(), 1);
    assert_eq!(boundaries[0].len(), 4);
    let paths = edges_to_paths(&boundaries[0]);
    assert_eq!(paths.len(), 1);
    let p = &paths[0];
    assert!(p.len() > 2 && p[0] == p[p.len() - 1]);
    assert_eq!(p.len(), 5);
    assert!(signed_area(p) < 0);
}

#[test]
fn ring_gives_outer_and_hole() {
    let grid = grid_of(
        "
------
-####-
-#--#-
-#--#-
-###--
------
",
    );
    let boundaries = get_edges(&grid, 6, 6);
    assert_eq!(boundaries.len(), 1);
    let paths = edges_to_paths(&boundaries[0]);
    assert_eq!(paths.len(), 2);
    let areas: Vec<i128> = paths.iter().map(|p| signed_area(p)).collect();
    assert_eq!(areas.iter().filter(|&a| *a < 0).count(), 1);
    assert_eq!(areas.iter().filter(|&a| *a > 0).count(), 1);
    for p in &paths {
        assert!(p.len() > 2);
        assert_eq!(p[0], p[p.len() - 1]);
    }
}

#[test]
fn bowtie_stays_two_regions_with_simple_paths() {
    // two foreground cells touching only at one lattice point
    let grid = grid_of(
        "
#-
-#
",
    );
    let regions = group(&grid, 2, 2);
    assert_eq!(regions.len(), 2);
    let boundaries = get_edges(&grid, 2, 2);
    assert_eq!(boundaries.len(), 2);
    for edges in &boundaries {
        assert_eq!(edges.len(), 4);
        let paths = edges_to_paths(edges);
        assert_eq!(paths.len(), 1);
        let p = &paths[0];
        assert!(p.len() > 2);
        assert_eq!(p[0], p[p.len() - 1]);
        // simple: no lattice point repeats except the closing one
        for i in 0..p.len() - 1 {
            for j in i + 1..p.len() - 1 {
                assert_ne!(p[i], p[j]);
            }
        }
    }
}

#[test]
fn boundary_edges_are_exactly_the_separations() {
    let art = "
--##--
-##---
##----
-##---
--##--
";
    let grid = grid_of(art);
    let (w, h) = (6usize, 5usize);
    // independently list every unit edge between foreground and
    // background or the grid limit
    let mut expected: Vec<(usize, usize, usize, usize)> = Vec::new();
    for y in 0..h {
        for x in 0..w {
            if grid[y * w + x] == 0 {
                continue;
            }
            if y == 0 || grid[(y - 1) * w + x] == 0 {
                expected.push((x, y, x + 1, y));
            }
            if y == h - 1 || grid[(y + 1) * w + x] == 0 {
                expected.push((x, y + 1, x + 1, y + 1));
            }
            if x == 0 || grid[y * w + x - 1] == 0 {
                expected.push((x, y, x, y + 1));
            }
            if x == w - 1 || grid[y * w + x + 1] == 0 {
                expected.push((x + 1, y, x + 1, y + 1));
            }
        }
    }
    expected.sort();
    expected.dedup();

    let boundaries = get_edges(&grid, w, h);
    let mut actual: Vec<(usize, usize, usize, usize)> = boundaries
        .iter()
        .flatten()
        .map(|e| (e.a.x, e.a.y, e.b.x, e.b.y))
        .collect();
    let total = actual.len();
    actual.sort();
    actual.dedup();
    // summed over all regions, each separating edge appears exactly once
    assert_eq!(actual.len(), total);
    assert_eq!(actual, expected);
}

#[test]
fn full_grid_is_one_region() {
    let grid = vec![7u8; 9];
    let regions = group(&grid, 3, 3);
    assert_eq!(regions, vec![vec![0, 1, 2, 3, 4, 5, 6, 7, 8]]);
}

#[test]
fn group_is_deterministic_and_ordered() {
    let grid = grid_of(
        "
#-#
---
#-#
",
    );
    let regions = group(&grid, 3, 3);
    assert_eq!(regions, vec![vec![0], vec![2], vec![6], vec![8]]);
    let again = group(&grid, 3, 3);
    assert_eq!(regions, again);
}

#[test]
fn region_members_follow_scan_order() {
    let grid = grid_of(
        "
##-
-#-
-##
",
    );
    let regions = group(&grid, 3, 3);
    assert_eq!(regions, vec![vec![0, 1, 4, 7, 8]]);
}

#[test]
fn winding_resolution_is_idempotent() {
    let grid = grid_of(
        "
------
-####-
-#--#-
-#--#-
-###--
------
",
    );
    let boundaries = get_edges(&grid, 6, 6);
    let paths = edges_to_paths(&boundaries[0]);
    let mut again = paths.clone();
    resolve_winding(&mut again);
    assert_eq!(paths, again);
}

#[test]
fn point_in_polygon_square() {
    let square = vec![pt(0, 0), pt(2, 0), pt(2, 2), pt(0, 2)];
    assert!(point_in_polygon(pt(1, 1), &square));
    assert!(!point_in_polygon(pt(3, 1), &square));
    assert!(!point_in_polygon(pt(2, 1), &square));
}

#[test]
fn signed_area_unit_square_both_orientations() {
    let ccw_in_grid = vec![pt(0, 0), pt(1, 0), pt(1, 1), pt(0, 1), pt(0, 0)];
    assert_eq!(signed_area(&ccw_in_grid), 2);
    let cw_in_grid = vec![pt(0, 0), pt(0, 1), pt(1, 1), pt(1, 0), pt(0, 0)];
    assert_eq!(signed_area(&cw_in_grid), -2);
}

#[test]
fn resolve_winding_flips_positive_outer() {
    // a single outer square wound positively must come out negative
    let mut paths = vec![vec![pt(0, 0), pt(1, 0), pt(1, 1), pt(0, 1), pt(0, 0)]];
    resolve_winding(&mut paths);
    assert_eq!(signed_area(&paths[0]), -2);
    // and a hole inside an outer contour must come out positive
    let outer = vec![pt(0, 0), pt(0, 4), pt(4, 4), pt(4, 0), pt(0, 0)];
    let hole = vec![pt(1, 1), pt(1, 3), pt(3, 3), pt(3, 1), pt(1, 1)];
    let mut nested = vec![outer, hole];
    resolve_winding(&mut nested);
    assert!(signed_area(&nested[0]) < 0);
    assert!(signed_area(&nested[1]) > 0);
}

#[test]
fn resolve_winding_handles_double_nesting() {
    // an island inside a hole sits at even depth again: negative area
    let outer = vec![pt(0, 0), pt(0, 6), pt(6, 6), pt(6, 0), pt(0, 0)];
    let hole = vec![pt(1, 1), pt(1, 5), pt(5, 5), pt(5, 1), pt(1, 1)];
    let island = vec![pt(2, 2), pt(2, 4), pt(4, 4), pt(4, 2), pt(2, 2)];
    let mut nested = vec![outer, hole, island];
    resolve_winding(&mut nested);
    assert!(signed_area(&nested[0]) < 0);
    assert!(signed_area(&nested[1]) > 0);
    assert!(signed_area(&nested[2]) < 0);
}

#[test]
fn union_find_merges_and_reports() {
    let mut uf = ase2ttf_core::union_find::UnionFind::new(5);
    assert_eq!(uf.find(3), 3);
    assert!(uf.union(0, 1));
    assert!(!uf.union(1, 0));
    assert!(uf.union(1, 2));
    assert_eq!(uf.find(0), uf.find(2));
    assert_ne!(uf.find(0), uf.find(4));
}
