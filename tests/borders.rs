use coordinate_borders::field::{blend, classify_cell, draw_borders, BorderPixels};
use coordinate_borders::house::{distance_sq, pick_colour, scenario_group, within_band, House};
use coordinate_borders::nearest::NearestHouses;
use coordinate_borders::vertices::{find_start, get_border_points, paint_seeds, walk_border};

fn four_seeds() -> Vec<House> {
    vec![
        House::new(0, 0, 1),
        House::new(10, 0, 1),
        House::new(0, 10, 2),
        House::new(10, 10, 2),
    ]
}

fn run_pass(seeds: &Vec<House>, w: u16, h: u16, radius: u16) -> (BorderPixels, Vec<u8>) {
    let mut store = BorderPixels::new(w, h);
    let mut image = vec![0u8; w as usize * h as usize * 4];
    draw_borders(seeds, radius, &mut store, &mut image);
    (store, image)
}

fn pixel(image: &Vec<u8>, w: usize, x: usize, y: usize) -> [u8; 4] {
    let s = (x + y * w) * 4;
    [image[s], image[s + 1], image[s + 2], image[s + 3]]
}

#[test]
fn four_seed_scenario_marks_middle_line() {
    let seeds = four_seeds();
    let (store, image) = run_pass(&seeds, 20, 20, 2);
    for x in [0u16, 3, 5, 7, 10] {
        assert!(store.get(x, 5).is_some(), "cell ({}, 5) should be a border", x);
    }
    assert!(store.get(5, 0).is_none());
    assert!(store.get(5, 10).is_none());
    assert_eq!(store.get(0, 5), Some((0, 2)));
    // red and green averaged, rounded down, opaque
    assert_eq!(pixel(&image, 20, 0, 5), [127, 127, 0, 255]);
    assert_eq!(pixel(&image, 20, 5, 0), [0, 0, 0, 0]);
}

#[test]
fn four_seed_scenario_cells_directly() {
    let seeds = four_seeds();
    assert_eq!(classify_cell(&seeds, 0, 5, 2), Some((0, 2)));
    assert_eq!(classify_cell(&seeds, 5, 0, 2), None);
    assert_eq!(classify_cell(&seeds, 5, 10, 2), None);
    assert_eq!(classify_cell(&seeds, 0, 0, 2), None);
}

#[test]
fn single_group_never_borders() {
    let seeds = vec![
        House::new(1, 1, 0),
        House::new(7, 3, 0),
        House::new(3, 9, 0),
        House::new(8, 8, 0),
        House::new(5, 5, 0),
    ];
    let (store, image) = run_pass(&seeds, 12, 12, 2);
    for x in 0..12u16 {
        for y in 0..12u16 {
            assert!(store.get(x, y).is_none());
        }
    }
    assert!(image.iter().all(|&b| b == 0));
}

#[test]
fn second_pass_changes_nothing() {
    let seeds = four_seeds();
    let mut store = BorderPixels::new(20, 20);
    let mut image = vec![0u8; 20 * 20 * 4];
    draw_borders(&seeds, 2, &mut store, &mut image);
    let first: Vec<_> = (0..20u16).flat_map(|x| (0..20u16).map(move |y| (x, y))).map(|(x, y)| store.get(x, y)).collect();
    let first_image = image.clone();
    draw_borders(&seeds, 2, &mut store, &mut image);
    let second: Vec<_> = (0..20u16).flat_map(|x| (0..20u16).map(move |y| (x, y))).map(|(x, y)| store.get(x, y)).collect();
    assert_eq!(first, second);
    assert_eq!(first_image, image);
}

#[test]
fn empty_store_gives_no_vertices() {
    let store = BorderPixels::new(15, 10);
    let mut image = vec![9u8; 15 * 10 * 4];
    assert_eq!(find_start(&store), None);
    let (vertices, visited, _) = get_border_points(&store, &mut image);
    assert!(vertices.is_empty());
    assert!(visited.iter().all(|v| !v));
    assert!(image.iter().all(|&b| b == 9));
}

#[test]
fn walk_covers_the_border() {
    let seeds = four_seeds();
    let (store, _) = run_pass(&seeds, 20, 20, 2);
    let start = find_start(&store).unwrap();
    assert_eq!(start.0, 0);
    let (vertices, visited, parents) = walk_border(&store);
    for x in 0..20u16 {
        for y in 0..20u16 {
            let k = y as usize * 20 + x as usize;
            if visited[k] {
                assert!(store.get(x, y).is_some());
            }
        }
    }
    // the middle of the grid is where four regions meet: pairs change there
    assert!(!vertices.is_empty());
    for &(vx, vy) in &vertices {
        assert!(visited[vy * 20 + vx]);
        assert!((vx, vy) != (start.0, start.1));
        let (px, py) = parents[vy * 20 + vx];
        assert!(px.abs_diff(vx) + py.abs_diff(vy) == 1);
    }
}

#[test]
fn walk_on_one_pair_has_no_vertices() {
    let seeds = vec![House::new(0, 0, 1), House::new(0, 10, 2)];
    let (store, _) = run_pass(&seeds, 10, 11, 2);
    let (vertices, visited, parents) = walk_border(&store);
    assert!(vertices.is_empty());
    assert!(visited.iter().any(|&v| v));
}

#[test]
fn markers_are_painted_red() {
    let seeds = four_seeds();
    let (store, mut image) = run_pass(&seeds, 20, 20, 2);
    let (vertices, _, _) = get_border_points(&store, &mut image);
    let (vx, vy) = vertices[0];
    assert_eq!(pixel(&image, 20, vx, vy), [255, 0, 0, 255]);
}

#[test]
fn nearest_set_keeps_the_band() {
    let mut set = NearestHouses::new();
    set.add((0, 100)); // distance 10
    set.add((1, 144)); // distance 12: within 2 of 10
    assert_eq!(set.members(), vec![(0, 100), (1, 144)]);
    set.add((2, 169)); // distance 13: outside
    assert_eq!(set.members(), vec![(0, 100), (1, 144)]);
    set.add((3, 64)); // distance 8: evicts 12
    assert_eq!(set.members(), vec![(3, 64), (0, 100)]);
    set.add((4, 100)); // equal distance goes after the earlier one
    assert_eq!(set.members(), vec![(3, 64), (0, 100), (4, 100)]);
}

#[test]
fn nearest_set_border_and_pair_agree() {
    let houses = vec![House::new(0, 0, 1), House::new(0, 0, 1), House::new(0, 0, 3)];
    let mut set = NearestHouses::new();
    assert!(!set.is_border(&houses));
    assert_eq!(set.get_houses(&houses), None);
    set.add((0, 25));
    set.add((1, 25));
    assert!(!set.is_border(&houses));
    assert_eq!(set.get_houses(&houses), None);
    set.add((2, 36));
    assert!(set.is_border(&houses));
    assert_eq!(set.get_houses(&houses), Some([(0, 25), (2, 36)]));
}

#[test]
fn band_edges() {
    // sqrt(49) = 7 <= sqrt(25) + 2
    assert!(within_band(25, 49, 2));
    // sqrt(50) > 7
    assert!(!within_band(25, 50, 2));
    assert!(within_band(0, 4, 2));
    assert!(!within_band(0, 5, 2));
    assert!(within_band(8589672450, 8589672450, 65535));
}

#[test]
fn distances_and_colours() {
    assert_eq!(distance_sq(&House::new(3, 4, 0), 0, 0), 25);
    assert_eq!(distance_sq(&House::new(0, 0, 0), 65535, 65535), 8589672450);
    assert_eq!(pick_colour(1), [255, 0, 0, 255]);
    assert_eq!(pick_colour(2), [0, 255, 0, 255]);
    assert_eq!(pick_colour(3), [0, 0, 255, 255]);
    assert_eq!(pick_colour(4), [175, 75, 25, 255]);
    assert_eq!(pick_colour(9), [255, 255, 255, 255]);
    assert_eq!(blend(3, 4), [87, 37, 140, 255]);
    assert_eq!(blend(0, 1), [255, 127, 127, 255]);
}

#[test]
fn scenario_regions() {
    assert_eq!(scenario_group(50, 50), 0);
    assert_eq!(scenario_group(999, 799), 1);
    assert_eq!(scenario_group(400, 400), 2);
    assert_eq!(scenario_group(750, 0), 3);
    assert_eq!(scenario_group(750, 300), 4);
}

#[test]
fn band_holding_three_seeds() {
    // nearest two share a group; the third lies in the band and differs
    let seeds = vec![House::new(0, 0, 1), House::new(10, 0, 1), House::new(5, 6, 2)];
    assert_eq!(classify_cell(&seeds, 5, 0, 2), Some((0, 2)));
}

#[test]
fn clearing_drops_stale_pairs() {
    let seeds = four_seeds();
    let (mut store, _) = run_pass(&seeds, 20, 20, 2);
    assert!(store.get(0, 5).is_some());
    store.clear();
    assert!(find_start(&store).is_none());
    let one_group = vec![House::new(0, 0, 1), House::new(0, 10, 1)];
    let mut image = vec![0u8; 20 * 20 * 4];
    draw_borders(&one_group, 2, &mut store, &mut image);
    assert!(find_start(&store).is_none());
}

#[test]
fn two_cell_border_reports_the_second_cell() {
    let mut store = BorderPixels::new(10, 10);
    store.set(0, 0, Some((1, 2)));
    store.set(1, 0, Some((1, 3)));
    let mut image = vec![0u8; 10 * 10 * 4];
    let (vertices, visited, parents) = get_border_points(&store, &mut image);
    assert_eq!(vertices, vec![(1, 0)]);
    assert!(visited[0] && visited[1]);
    assert_eq!(parents[1], (0, 0));
    for x in 0..10usize {
        for y in 0..10usize {
            let expected = if (1..6).contains(&x) && y < 5 { [255, 0, 0, 255] } else { [0, 0, 0, 0] };
            assert_eq!(pixel(&image, 10, x, y), expected);
        }
    }
}

#[test]
fn separate_component_is_not_walked() {
    let seeds = vec![House::new(0, 0, 1), House::new(8, 0, 2)];
    let (mut store, _) = run_pass(&seeds, 9, 3, 0);
    let (vertices, visited, _) = walk_border(&store);
    assert!(vertices.is_empty());
    for x in 0..9u16 {
        for y in 0..3u16 {
            assert_eq!(visited[y as usize * 9 + x as usize], x == 4);
        }
    }
    // a cell of another pair, not adjacent to the column, changes nothing
    store.set(7, 2, Some((5, 6)));
    let (vertices2, visited2, _) = walk_border(&store);
    assert_eq!(vertices2, vertices);
    assert_eq!(visited2, visited);
}

#[test]
fn seeds_are_painted_as_squares() {
    let seeds = vec![House::new(0, 0, 1), House::new(5, 5, 2), House::new(18, 18, 3)];
    let mut image = vec![0u8; 20 * 20 * 4];
    paint_seeds(&seeds, 20, 20, &mut image);
    assert_eq!(pixel(&image, 20, 2, 2), [255, 0, 0, 255]);
    assert_eq!(pixel(&image, 20, 7, 7), [0, 255, 0, 255]);
    assert_eq!(pixel(&image, 20, 14, 14), [0, 255, 0, 255]);
    assert_eq!(pixel(&image, 20, 15, 15), [0, 0, 0, 0]);
    assert_eq!(pixel(&image, 20, 19, 19), [0, 0, 255, 255]);
    assert_eq!(pixel(&image, 20, 10, 0), [0, 0, 0, 0]);
}
