use hitbox_mesh::geometry::{Point, Polygon};
use hitbox_mesh::image::ImagePolygon;
use hitbox_mesh::rdp::{rdp, Tolerance};

fn parse(list: &str) -> Polygon {
    list.split_whitespace()
        .map(|pair| {
            let (x, y) = match pair.split_once(',') {
                Some(parts) => parts,
                None => panic!("a point is written as x,y"),
            };
            Point::new(x.parse().unwrap(), y.parse().unwrap())
        })
        .collect()
}

fn picture(rows: &[&str]) -> ImagePolygon {
    let mut alpha: Vec<u16> = Vec::new();
    for row in rows {
        for c in row.chars() {
            alpha.push(if c == '#' { 1 } else { 0 });
        }
    }
    match ImagePolygon::new(rows[0].len() as u32, rows.len() as u32, alpha) {
        Ok(image) => image,
        Err(_) => panic!("the picture is well formed"),
    }
}

fn expect_trace(rows: &[&str], edges: &str, outer: &str, holes: &[&str]) {
    let image = picture(rows);
    assert_eq!(image.get_edges_points(), parse(edges));
    let (traced_outer, traced_holes) = match image.to_polygon() {
        Ok(contours) => contours,
        Err(_) => panic!("the picture has an opaque pixel"),
    };
    assert_eq!(traced_outer, parse(outer));
    let expected: Vec<Polygon> = holes.iter().map(|hole| parse(hole)).collect();
    assert_eq!(traced_holes, expected);
}

fn expect_rdp(run: &str, epsilon: f64, kept: &str) {
    let tolerance = match Tolerance::from_bits(epsilon.to_bits()) {
        Some(tolerance) => tolerance,
        None => panic!("the tolerance is finite and not negative"),
    };
    assert_eq!(rdp(&parse(run), tolerance), Ok(parse(kept)));
}

#[test]
fn scattered_picture_1() {
    expect_trace(
        &[".#.#####", ".#######", "#.#.####", "...#####", "####..#."],
        "1,0 3,0 4,0 5,0 6,0 7,0 1,1 2,1 3,1 7,1 0,2 2,2 4,2 7,2 3,3 4,3 5,3 7,3 0,4 1,4 2,4 3,4 6,4",
        "1,0 2,1 3,1 4,0 5,0 6,0 7,0 7,1 7,2 7,3 6,4 5,3 4,3 4,2 3,3 3,4 2,4 1,4 0,4",
        &["3,0", "1,1 2,2", "0,2"],
    );
}

#[test]
fn scattered_picture_2() {
    expect_trace(
        &["####.###", "######..", "##.##.##", "#...#..#", "#####.##", "####.###"],
        "0,0 1,0 2,0 3,0 5,0 6,0 7,0 0,1 2,1 4,1 5,1 0,2 1,2 3,2 4,2 6,2 7,2 0,3 4,3 7,3 0,4 1,4 2,4 3,4 4,4 6,4 7,4 0,5 1,5 2,5 3,5 5,5 6,5 7,5",
        "0,0 1,0 2,0 3,0 4,1 5,1 6,0 7,0",
        &["5,0", "0,1 1,2 2,1 3,2 4,2 4,3 4,4 5,5 6,5 7,5 7,4 7,3 7,2 6,2", "0,2 0,3 1,4 2,4 3,4 3,5 2,5 1,5 0,5 0,4", "6,4"],
    );
}

#[test]
fn scattered_picture_3() {
    expect_trace(
        &["...#", ".###", ".###", "##..", "..##", ".#.#", "...#"],
        "3,0 1,1 2,1 3,1 1,2 2,2 3,2 0,3 1,3 2,4 3,4 1,5 3,5 3,6",
        "3,0 3,1 3,2 2,2 2,1 1,1 1,2 1,3 2,4 3,4 3,5 3,6",
        &["0,3", "1,5"],
    );
}

#[test]
fn scattered_picture_4() {
    expect_trace(
        &[".####", ".#..#", ".###.", "####.", "#.#..", "...#."],
        "1,0 2,0 3,0 4,0 1,1 4,1 1,2 2,2 3,2 0,3 1,3 3,3 0,4 2,4 3,5",
        "1,0 2,0 3,0 4,0 4,1 3,2 3,3 2,2 1,2 1,1",
        &["0,3 1,3 2,4 3,5", "0,4"],
    );
}

#[test]
fn scattered_picture_5() {
    expect_trace(
        &["###.", "####", "#.##", "##..", "##.#", "##.#", "####"],
        "0,0 1,0 2,0 0,1 1,1 3,1 0,2 2,2 3,2 0,3 1,3 0,4 1,4 3,4 0,5 1,5 3,5 0,6 1,6 2,6 3,6",
        "0,0 1,0 2,0 3,1 3,2 2,2 1,1 0,1 0,2 1,3 1,4 1,5 2,6 3,6 3,5 3,4",
        &["0,3 0,4 0,5 1,6 0,6"],
    );
}

#[test]
fn scattered_picture_6() {
    expect_trace(
        &["..##.#..", "..##....", "#...#.#.", "#.......", "...###.."],
        "2,0 3,0 5,0 2,1 3,1 0,2 4,2 6,2 0,3 3,4 4,4 5,4",
        "2,0 3,0 3,1 4,2",
        &["5,0", "2,1", "0,2 0,3", "6,2", "3,4 4,4 5,4"],
    );
}

#[test]
fn scattered_picture_7() {
    expect_trace(
        &["####", "####", "##.#"],
        "0,0 1,0 2,0 3,0 0,1 2,1 3,1 0,2 1,2 3,2",
        "0,0 1,0 2,0 3,0 3,1 3,2 2,1 1,2 0,2 0,1",
        &[],
    );
}

#[test]
fn scattered_picture_8() {
    expect_trace(
        &[".#######", ".#######", "#####.##", "########", ".#.#####"],
        "1,0 2,0 3,0 4,0 5,0 6,0 7,0 1,1 5,1 7,1 0,2 4,2 6,2 7,2 0,3 2,3 5,3 7,3 1,4 3,4 4,4 5,4 6,4 7,4",
        "1,0 2,0 3,0 4,0 5,0 6,0 7,0 7,1 7,2 7,3 7,4 6,4 5,4 5,3 6,2 5,1 4,2",
        &["1,1 0,2 0,3 1,4 2,3 3,4 4,4"],
    );
}

#[test]
fn scattered_picture_9() {
    expect_trace(
        &["####", "#.##", "####", "####"],
        "0,0 1,0 2,0 3,0 0,1 2,1 3,1 0,2 1,2 3,2 0,3 1,3 2,3 3,3",
        "0,0 1,0 2,0 3,0 3,1 3,2 3,3 2,3 1,3 1,2 2,1",
        &["0,1 0,2 0,3"],
    );
}

#[test]
fn scattered_picture_10() {
    expect_trace(
        &["#####", "##.##", "##..#", "#....", "#.###", "##.#.", ".####"],
        "0,0 1,0 2,0 3,0 4,0 0,1 1,1 3,1 4,1 0,2 1,2 4,2 0,3 0,4 2,4 3,4 4,4 0,5 1,5 3,5 1,6 2,6 3,6 4,6",
        "0,0 1,0 2,0 3,0 4,0 4,1 4,2 3,1",
        &["0,1 1,1 1,2 0,2 0,3 0,4 1,5 2,4 3,4 4,4 3,5 4,6 3,6 2,6 1,6 0,5"],
    );
}

#[test]
fn scattered_run_1() {
    let run = "20,0 26,25 1,1 31,0 28,14";
    expect_rdp(run, 0.0, "20,0 26,25 1,1 31,0 28,14");
    expect_rdp(run, 0.3, "20,0 26,25 1,1 31,0 28,14");
    expect_rdp(run, 0.75, "20,0 26,25 1,1 31,0 28,14");
    expect_rdp(run, 1.0, "20,0 26,25 1,1 31,0 28,14");
    expect_rdp(run, 1.5, "20,0 26,25 1,1 31,0 28,14");
    expect_rdp(run, 2.5, "20,0 26,25 1,1 31,0 28,14");
    expect_rdp(run, 4.0, "20,0 26,25 1,1 31,0 28,14");
    expect_rdp(run, 9.0, "20,0 26,25 1,1 31,0 28,14");
}

#[test]
fn scattered_run_2() {
    let run = "20,15 36,2 8,21 3,12 29,17";
    expect_rdp(run, 0.0, "20,15 36,2 8,21 3,12 29,17");
    expect_rdp(run, 0.3, "20,15 36,2 8,21 3,12 29,17");
    expect_rdp(run, 0.75, "20,15 36,2 8,21 3,12 29,17");
    expect_rdp(run, 1.0, "20,15 36,2 8,21 3,12 29,17");
    expect_rdp(run, 1.5, "20,15 36,2 8,21 3,12 29,17");
    expect_rdp(run, 2.5, "20,15 36,2 8,21 3,12 29,17");
    expect_rdp(run, 4.0, "20,15 36,2 8,21 3,12 29,17");
    expect_rdp(run, 9.0, "20,15 36,2 8,21 3,12 29,17");
}

#[test]
fn scattered_run_3() {
    let run = "25,2 36,20 20,27 39,5 6,12";
    expect_rdp(run, 0.0, "25,2 36,20 20,27 39,5 6,12");
    expect_rdp(run, 0.3, "25,2 36,20 20,27 39,5 6,12");
    expect_rdp(run, 0.75, "25,2 36,20 20,27 39,5 6,12");
    expect_rdp(run, 1.0, "25,2 36,20 20,27 39,5 6,12");
    expect_rdp(run, 1.5, "25,2 36,20 20,27 39,5 6,12");
    expect_rdp(run, 2.5, "25,2 36,20 20,27 39,5 6,12");
    expect_rdp(run, 4.0, "25,2 36,20 20,27 39,5 6,12");
    expect_rdp(run, 9.0, "25,2 36,20 20,27 39,5 6,12");
}

#[test]
fn scattered_run_4() {
    let run = "7,3 34,26 29,31 1,23 19,27 4,19 18,7 39,32 3,7 8,22 13,32";
    expect_rdp(run, 0.0, "7,3 34,26 29,31 1,23 19,27 4,19 18,7 39,32 3,7 8,22 13,32");
    expect_rdp(run, 0.3, "7,3 34,26 29,31 1,23 19,27 4,19 18,7 39,32 3,7 8,22 13,32");
    expect_rdp(run, 0.75, "7,3 34,26 29,31 1,23 19,27 4,19 18,7 39,32 3,7 8,22 13,32");
    expect_rdp(run, 1.0, "7,3 34,26 29,31 1,23 19,27 4,19 18,7 39,32 3,7 13,32");
    expect_rdp(run, 1.5, "7,3 34,26 29,31 1,23 19,27 4,19 18,7 39,32 3,7 13,32");
    expect_rdp(run, 2.5, "7,3 34,26 29,31 1,23 19,27 4,19 18,7 39,32 3,7 13,32");
    expect_rdp(run, 4.0, "7,3 34,26 29,31 1,23 19,27 4,19 18,7 39,32 3,7 13,32");
    expect_rdp(run, 9.0, "7,3 34,26 1,23 19,27 4,19 18,7 39,32 3,7 13,32");
}

#[test]
fn scattered_run_5() {
    let run = "21,23 7,21 26,30 7,4 23,2 25,24 17,30";
    expect_rdp(run, 0.0, "21,23 7,21 26,30 7,4 23,2 25,24 17,30");
    expect_rdp(run, 0.3, "21,23 7,21 26,30 7,4 23,2 25,24 17,30");
    expect_rdp(run, 0.75, "21,23 7,21 26,30 7,4 23,2 25,24 17,30");
    expect_rdp(run, 1.0, "21,23 7,21 26,30 7,4 23,2 25,24 17,30");
    expect_rdp(run, 1.5, "21,23 7,21 26,30 7,4 23,2 25,24 17,30");
    expect_rdp(run, 2.5, "21,23 7,21 26,30 7,4 23,2 25,24 17,30");
    expect_rdp(run, 4.0, "21,23 7,21 26,30 7,4 23,2 25,24 17,30");
    expect_rdp(run, 9.0, "21,23 7,21 26,30 7,4 23,2 17,30");
}

#[test]
fn scattered_run_6() {
    let run = "12,10 1,34 32,22 26,30 13,10 19,7 27,32 35,3 23,13 2,22";
    expect_rdp(run, 0.0, "12,10 1,34 32,22 26,30 13,10 19,7 27,32 35,3 23,13 2,22");
    expect_rdp(run, 0.3, "12,10 1,34 32,22 26,30 13,10 19,7 27,32 35,3 23,13 2,22");
    expect_rdp(run, 0.75, "12,10 1,34 32,22 26,30 13,10 19,7 27,32 35,3 23,13 2,22");
    expect_rdp(run, 1.0, "12,10 1,34 32,22 26,30 13,10 19,7 27,32 35,3 23,13 2,22");
    expect_rdp(run, 1.5, "12,10 1,34 32,22 26,30 13,10 19,7 27,32 35,3 23,13 2,22");
    expect_rdp(run, 2.5, "12,10 1,34 32,22 26,30 13,10 19,7 27,32 35,3 23,13 2,22");
    expect_rdp(run, 4.0, "12,10 1,34 32,22 26,30 13,10 19,7 27,32 35,3 2,22");
    expect_rdp(run, 9.0, "12,10 1,34 32,22 26,30 19,7 27,32 35,3 2,22");
}

#[test]
fn scattered_run_7() {
    let run = "23,2 40,15 3,23 5,30 34,33 36,7 40,20";
    expect_rdp(run, 0.0, "23,2 40,15 3,23 5,30 34,33 36,7 40,20");
    expect_rdp(run, 0.3, "23,2 40,15 3,23 5,30 34,33 36,7 40,20");
    expect_rdp(run, 0.75, "23,2 40,15 3,23 5,30 34,33 36,7 40,20");
    expect_rdp(run, 1.0, "23,2 40,15 3,23 5,30 34,33 36,7 40,20");
    expect_rdp(run, 1.5, "23,2 40,15 3,23 5,30 34,33 36,7 40,20");
    expect_rdp(run, 2.5, "23,2 40,15 3,23 5,30 34,33 36,7 40,20");
    expect_rdp(run, 4.0, "23,2 40,15 3,23 5,30 34,33 36,7 40,20");
    expect_rdp(run, 9.0, "23,2 40,15 5,30 34,33 36,7 40,20");
}

#[test]
fn scattered_run_8() {
    let run = "18,31 16,17 37,19 28,28 20,31 15,14 29,28 34,1 19,21 8,9 18,12 28,0 29,26 14,20";
    expect_rdp(run, 0.0, "18,31 16,17 37,19 28,28 20,31 15,14 29,28 34,1 19,21 8,9 18,12 28,0 29,26 14,20");
    expect_rdp(run, 0.3, "18,31 16,17 37,19 28,28 20,31 15,14 29,28 34,1 19,21 8,9 18,12 28,0 29,26 14,20");
    expect_rdp(run, 0.75, "18,31 16,17 37,19 28,28 20,31 15,14 29,28 34,1 19,21 8,9 18,12 28,0 29,26 14,20");
    expect_rdp(run, 1.0, "18,31 16,17 37,19 28,28 20,31 15,14 29,28 34,1 19,21 8,9 18,12 28,0 29,26 14,20");
    expect_rdp(run, 1.5, "18,31 16,17 37,19 28,28 20,31 15,14 29,28 34,1 19,21 8,9 18,12 28,0 29,26 14,20");
    expect_rdp(run, 2.5, "18,31 16,17 37,19 20,31 15,14 29,28 34,1 19,21 8,9 18,12 28,0 29,26 14,20");
    expect_rdp(run, 4.0, "18,31 16,17 37,19 20,31 15,14 29,28 34,1 19,21 8,9 18,12 28,0 29,26 14,20");
    expect_rdp(run, 9.0, "18,31 16,17 37,19 20,31 15,14 29,28 34,1 19,21 8,9 28,0 29,26 14,20");
}
