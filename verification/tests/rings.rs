use sprite_atlas::blob::Blob;
use sprite_atlas::rings::BlobRings;

// "000100200" reads as [(0, 0, 0), (1, 0, 0), (2, 0, 0)]
fn expected(digits: &str) -> Vec<(u32, u32, u32)> {
    let values: Vec<u32> = digits.chars().map(|c| c.to_digit(10).unwrap()).collect();
    values.chunks(3).map(|chunk| (chunk[0], chunk[1], chunk[2])).collect()
}

#[test]
fn test_blob_rings_4x4() {
    let blob = Blob::new(0, 0, 3, 3);
    let rings = BlobRings::new(blob);

    let coords: Vec<(u32, u32, u32)> = rings.collect();
    let expected = expected("000100200300310320330230130030020010111211221121");

    assert_eq!(coords, expected);
}

#[test]
fn test_blob_rings_3x3() {
    let blob = Blob::new(0, 0, 2, 2);
    let rings = BlobRings::new(blob);
    let coords: Vec<(u32, u32, u32)> = rings.collect();
    let expected = expected("000100200210220120020010111");

    assert_eq!(coords, expected);
}

#[test]
fn test_blob_rings_2x2() {
    let blob = Blob::new(0, 0, 1, 1);
    let rings = BlobRings::new(blob);
    let coords: Vec<(u32, u32, u32)> = rings.collect();
    let expected = expected("000100110010");

    assert_eq!(coords, expected);
}

#[test]
fn test_blob_rings_1x1() {
    let blob = Blob::new(0, 0, 0, 0);
    let rings = BlobRings::new(blob);
    let coords: Vec<(u32, u32, u32)> = rings.collect();
    let expected = vec![(0, 0, 0)];

    assert_eq!(coords, expected);
}

#[test]
fn test_blob_rings_0x0() {
    let blob = Blob::new(0, 0, 0, 0);
    let rings = BlobRings::new(blob);
    let coords: Vec<(u32, u32, u32)> = rings.collect();
    let expected = vec![(0, 0, 0)];

    assert_eq!(coords, expected);
}

#[test]
fn test_blob_rings_wide() {
    let blob = Blob::new(0, 0, 3, 1);
    let rings = BlobRings::new(blob);
    let coords: Vec<(u32, u32, u32)> = rings.collect();
    let expected = expected("000100200300310210110010");

    assert_eq!(coords, expected);
}

#[test]
fn rings_of_an_offset_box_start_at_its_corner() {
    let coords = BlobRings::new(Blob::new(5, 7, 7, 9)).collect();
    assert_eq!(
        coords,
        vec![
            (5, 7, 0),
            (6, 7, 0),
            (7, 7, 0),
            (7, 8, 0),
            (7, 9, 0),
            (6, 9, 0),
            (5, 9, 0),
            (5, 8, 0),
            (6, 8, 1)
        ]
    );
}

#[test]
fn rings_of_a_box_with_disordered_corners_are_empty() {
    let coords = BlobRings::new(Blob::new(3, 0, 2, 5)).collect();
    assert!(coords.is_empty());
}

#[test]
fn rings_cover_each_pixel_once() {
    for (w, h) in [(1u32, 1u32), (2, 2), (4, 4), (5, 3), (6, 2), (7, 1), (4, 7), (2, 9), (5, 5), (8, 6)] {
        let blob = Blob::new(10, 20, 10 + w - 1, 20 + h - 1);
        let coords = BlobRings::new(blob).collect();
        assert_eq!(coords.len() as u32, w * h);
        let mut hits = vec![0u32; (w * h) as usize];
        for (x, y, ring) in coords {
            assert!(x >= 10 && x < 10 + w && y >= 20 && y < 20 + h);
            let dx = (x - 10).min(10 + w - 1 - x);
            let dy = (y - 20).min(20 + h - 1 - y);
            assert_eq!(ring, dx.min(dy));
            hits[((y - 20) * w + (x - 10)) as usize] += 1;
        }
        assert!(hits.iter().all(|&n| n == 1));
    }
}

#[test]
fn rings_step_by_step() {
    let mut rings = BlobRings::new(Blob::new(0, 0, 1, 0));
    assert_eq!(rings.next(), Some((0, 0, 0)));
    assert_eq!(rings.next(), Some((1, 0, 0)));
    assert_eq!(rings.next(), None);
    assert_eq!(rings.next(), None);
}

#[test]
fn rings_at_the_far_corner_do_not_overflow() {
    let coords = BlobRings::new(Blob::new(u32::MAX, u32::MAX, u32::MAX, u32::MAX)).collect();
    assert_eq!(coords, vec![(u32::MAX, u32::MAX, 0)]);
}

#[test]
fn rings_of_a_narrow_tall_box_run_along_the_top_row() {
    let coords = BlobRings::new(Blob::new(0, 0, 0, 2)).collect();
    assert_eq!(coords, vec![(0, 0, 0), (1, 0, 0), (2, 0, 0)]);
}
