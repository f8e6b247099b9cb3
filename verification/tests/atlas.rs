use sprite_atlas::anim::summarize;
use sprite_atlas::anim::Anim;
use sprite_atlas::blob::Blob;
use sprite_atlas::blob::Dimensions;
use sprite_atlas::color::Color;
use sprite_atlas::frames::Anchor;
use sprite_atlas::grid::PixelGrid;
use sprite_atlas::meta::metablob_pixel_sorter;
use sprite_atlas::meta::pack_bits;
use sprite_atlas::meta::read_header;
use sprite_atlas::meta::try_parse_as_metablob;
use sprite_atlas::meta::MetablobPixel;
use sprite_atlas::meta::MAGIC;
use sprite_atlas::order::sort_blobs;
use sprite_atlas::padding::infer_blob_padding;
use sprite_atlas::padding::infer_one_padding;
use sprite_atlas::scan::find_blobs;
use sprite_atlas::flood::FindBlobsData;

const MAGENTA: Color = Color { r: 255, g: 0, b: 255, a: 255 };
const RED: Color = Color { r: 200, g: 10, b: 10, a: 255 };
const CLEAR: Color = Color { r: 0, g: 0, b: 0, a: 0 };
const BLACK: Color = Color { r: 0, g: 0, b: 0, a: 255 };
const WHITE: Color = Color { r: 255, g: 255, b: 255, a: 255 };

fn blank(width: usize, height: usize) -> Vec<Color> {
    vec![MAGENTA; width * height]
}

fn fill(colors: &mut Vec<Color>, width: usize, blob: Blob, color: Color) {
    for y in blob.y_min..=blob.y_max {
        for x in blob.x_min..=blob.x_max {
            colors[x as usize + y as usize * width] = color;
        }
    }
}

// Spells the bytes, lowest bit first, into the pixels of the box in reading
// order; what is left of the box stays transparent.
fn spell(colors: &mut Vec<Color>, width: usize, blob: Blob, bytes: &[u8]) {
    fill(colors, width, blob, CLEAR);
    let mut bits = Vec::new();
    for byte in bytes {
        for i in 0..8 {
            bits.push((byte >> i) & 1 == 1);
        }
    }
    let mut k = 0;
    for y in blob.y_min..=blob.y_max {
        for x in blob.x_min..=blob.x_max {
            if k < bits.len() {
                colors[x as usize + y as usize * width] = if bits[k] { WHITE } else { BLACK };
                k += 1;
            }
        }
    }
    assert_eq!(k, bits.len());
}

#[test]
fn one_square_in_a_ten_by_ten_atlas() {
    let mut colors = blank(10, 10);
    fill(&mut colors, 10, Blob::new(2, 2, 5, 5), RED);
    let grid = PixelGrid::new(colors, 10, 10);
    let (blobs, meta) = find_blobs(&grid);
    assert!(meta.is_none());
    assert_eq!(blobs, vec![Blob { x_min: 2, y_min: 2, x_max: 5, y_max: 5 }]);
    assert_eq!(blobs[0].width(), 4);
    assert_eq!(blobs[0].height(), 4);
    assert_eq!(blobs[0].size(), 16);
}

#[test]
fn regions_come_out_in_reading_order() {
    let mut colors = blank(12, 9);
    // found first by the column scan, but lowest on the sheet
    fill(&mut colors, 12, Blob::new(0, 6, 1, 7), RED);
    fill(&mut colors, 12, Blob::new(8, 1, 10, 2), RED);
    fill(&mut colors, 12, Blob::new(3, 1, 5, 4), RED);
    fill(&mut colors, 12, Blob::new(7, 5, 7, 5), RED);
    let grid = PixelGrid::new(colors, 12, 9);
    let (blobs, meta) = find_blobs(&grid);
    assert!(meta.is_none());
    assert_eq!(
        blobs,
        vec![Blob::new(3, 1, 5, 4), Blob::new(8, 1, 10, 2), Blob::new(7, 5, 7, 5), Blob::new(0, 6, 1, 7)]
    );
}

#[test]
fn a_bent_region_is_one_blob() {
    let mut colors = blank(6, 6);
    for (x, y) in [(1, 1), (1, 2), (1, 3), (2, 3), (3, 3), (3, 2), (3, 1), (4, 1)] {
        colors[x + y * 6] = RED;
    }
    // touches the region only at a corner: a region of its own
    colors[5 + 2 * 6] = RED;
    let grid = PixelGrid::new(colors, 6, 6);
    let (blobs, _) = find_blobs(&grid);
    assert_eq!(blobs, vec![Blob::new(1, 1, 4, 3), Blob::new(5, 2, 5, 2)]);
}

#[test]
fn regions_with_one_corner_keep_the_order_of_the_scan() {
    let mut colors = blank(4, 4);
    colors[0] = RED;
    for (x, y) in [(2, 0), (2, 1), (2, 2), (1, 2), (0, 2)] {
        colors[x + y * 4] = RED;
    }
    let grid = PixelGrid::new(colors, 4, 4);
    let (blobs, _) = find_blobs(&grid);
    assert_eq!(blobs, vec![Blob::new(0, 0, 0, 0), Blob::new(0, 0, 2, 2)]);
}

#[test]
fn an_atlas_that_is_too_small_has_no_frames() {
    let grid = PixelGrid::new(vec![RED; 2 * 50], 2, 50);
    let (blobs, meta) = find_blobs(&grid);
    assert!(blobs.is_empty() && meta.is_none());
    let grid = PixelGrid::new(vec![RED; 50 * 2], 50, 2);
    let (blobs, meta) = find_blobs(&grid);
    assert!(blobs.is_empty() && meta.is_none());
    let grid = PixelGrid::new(vec![RED; 9], 3, 3);
    let (blobs, _) = find_blobs(&grid);
    assert_eq!(blobs, vec![Blob::new(0, 0, 2, 2)]);
}

#[test]
fn an_atlas_of_background_has_no_frames() {
    let grid = PixelGrid::new(blank(5, 4), 5, 4);
    let (blobs, meta) = find_blobs(&grid);
    assert!(blobs.is_empty() && meta.is_none());
}

#[test]
fn visit_marks_and_reports() {
    let mut colors = blank(3, 3);
    colors[1 + 3] = RED;
    let grid = PixelGrid::new(colors, 3, 3);
    let mut data = FindBlobsData::new(&grid);
    assert_eq!(data.visit(&grid, 0, 0), None);
    assert_eq!(data.visit(&grid, 1, 1), Some(RED));
    assert_eq!(data.visit(&grid, 1, 1), None);
    assert_eq!(data.visit(&grid, 3, 1), None);
    assert_eq!(data.visit(&grid, 1, 3), None);
    data.append_neighbours(&grid, 0, 0);
    assert_eq!(data.stack, vec![(1, 0), (0, 1)]);
    data.clear_stack();
    data.append_neighbours(&grid, 1, 1);
    assert_eq!(data.stack, vec![(0, 1), (2, 1), (1, 0), (1, 2)]);
    data.clear_stack();
    data.append_neighbours(&grid, 2, 2);
    assert_eq!(data.stack, vec![(1, 2), (2, 1)]);
}

#[test]
fn flood_gives_the_extent_of_the_region() {
    let mut colors = blank(5, 5);
    for (x, y) in [(2, 1), (2, 2), (2, 3), (1, 2), (3, 2)] {
        colors[x + y * 5] = RED;
    }
    let grid = PixelGrid::new(colors, 5, 5);
    let mut data = FindBlobsData::new(&grid);
    assert!(data.visit(&grid, 2, 2).is_some());
    assert_eq!(data.flood(&grid, 2, 2), Blob::new(1, 1, 3, 3));
    assert!(data.stack.is_empty());
}

#[test]
fn pixels_are_sorted_transparent_first() {
    assert_eq!(metablob_pixel_sorter(Color::new(0, 0, 0, 0)), MetablobPixel::Transparent);
    assert_eq!(metablob_pixel_sorter(Color::new(255, 255, 255, 0)), MetablobPixel::Transparent);
    assert_eq!(metablob_pixel_sorter(Color::new(9, 9, 9, 0)), MetablobPixel::Transparent);
    assert_eq!(metablob_pixel_sorter(Color::new(0, 0, 0, 255)), MetablobPixel::Black);
    assert_eq!(metablob_pixel_sorter(Color::new(0, 0, 0, 1)), MetablobPixel::Black);
    assert_eq!(metablob_pixel_sorter(Color::new(255, 255, 255, 255)), MetablobPixel::White);
    assert_eq!(metablob_pixel_sorter(Color::new(255, 255, 254, 255)), MetablobPixel::Wrong);
    assert_eq!(metablob_pixel_sorter(MAGENTA), MetablobPixel::Wrong);
}

#[test]
fn colors_are_told_apart_exactly() {
    assert!(MAGENTA.is_magenta());
    assert!(!Color::new(255, 0, 255, 254).is_magenta());
    assert!(!Color::new(254, 0, 255, 255).is_magenta());
    assert!(!Color::new(255, 1, 255, 255).is_magenta());
    assert!(CLEAR.is_alpha() && !BLACK.is_alpha());
    assert!(BLACK.is_black() && !WHITE.is_black());
    assert!(WHITE.is_white() && !BLACK.is_white());
}

#[test]
fn bits_are_packed_lowest_first() {
    assert_eq!(MAGIC, 0xAA);
    let bits = vec![false, true, false, true, false, true, false, true];
    assert_eq!(pack_bits(&bits), vec![0xAA]);
    let bits = vec![true, false, false, false, false, false, false, false, true, true];
    assert_eq!(pack_bits(&bits), vec![1, 3]);
    assert_eq!(pack_bits(&vec![]), Vec::<u8>::new());
    assert_eq!(pack_bits(&vec![true; 8]), vec![255]);
    assert_eq!(pack_bits(&vec![false, false, false, false, false, false, false, true]), vec![128]);
}

#[test]
fn headers_are_checked() {
    assert_eq!(read_header(&vec![0xAA, 0, 1, 7]), Some(7));
    assert_eq!(read_header(&vec![0xAA, 0, 2, 7]), None);
    assert_eq!(read_header(&vec![0xAA, 0, 2, 7, 0]), Some(7));
    assert_eq!(read_header(&vec![0xAB, 0, 1, 7]), None);
    assert_eq!(read_header(&vec![0xAA, 1, 0, 7]), None);
    assert_eq!(read_header(&vec![0xAA, 0, 0]), None);
    assert_eq!(read_header(&vec![]), None);
    let mut long = vec![0u8; 260];
    long[0] = 0xAA;
    long[1] = 1;
    long[2] = 1;
    long[3] = 9;
    assert_eq!(read_header(&long), Some(9));
    long.pop();
    assert_eq!(read_header(&long), None);
}

#[test]
fn metadata_round_trip() {
    for (len, pad) in [(1u16, 0u8), (1, 3), (2, 255), (5, 17)] {
        let mut bytes = vec![MAGIC, (len >> 8) as u8, (len & 255) as u8, pad];
        while bytes.len() < len as usize + 3 {
            bytes.push(0x5C);
        }
        let mut colors = blank(12, 12);
        let blob = Blob::new(1, 2, 10, 9);
        spell(&mut colors, 12, blob, &bytes);
        let grid = PixelGrid::new(colors, 12, 12);
        let meta = try_parse_as_metablob(&grid, &blob).unwrap();
        assert_eq!(meta.pad_blob, pad as u32);
        assert!(meta.anchor == Anchor::TopLeft);
    }
}

#[test]
fn metadata_with_a_foreign_pixel_is_refused() {
    let bytes = vec![MAGIC, 0, 1, 4];
    let blob = Blob::new(1, 1, 8, 4);
    for spot in [0usize, 5, 31] {
        let mut colors = blank(10, 6);
        spell(&mut colors, 10, blob, &bytes);
        let grid = PixelGrid::new(colors.clone(), 10, 6);
        assert!(try_parse_as_metablob(&grid, &blob).is_some());
        let x = 1 + spot % 8;
        let y = 1 + spot / 8;
        colors[x + y * 10] = RED;
        let grid = PixelGrid::new(colors, 10, 6);
        assert!(try_parse_as_metablob(&grid, &blob).is_none());
    }
}

#[test]
fn metadata_skips_transparent_pixels() {
    // the bits of the payload with a transparent pixel before each of them
    let bytes = [MAGIC, 0, 1, 6];
    let mut colors = blank(10, 10);
    let mut k = 0;
    for byte in bytes {
        for i in 0..8 {
            let bit = (byte >> i) & 1 == 1;
            let x = 1 + k % 8;
            let y = 1 + k / 8;
            colors[x + y * 10] = CLEAR;
            colors[x + 1 + y * 10] = if bit { WHITE } else { BLACK };
            k += 2;
        }
    }
    let blob = Blob::new(1, 1, 8, 8);
    let grid = PixelGrid::new(colors, 10, 10);
    assert_eq!(try_parse_as_metablob(&grid, &blob).map(|m| m.pad_blob), Some(6));
}

#[test]
fn metadata_with_a_wrong_magic_or_length_is_refused() {
    let blob = Blob::new(0, 0, 7, 3);
    let mut colors = blank(8, 4);
    spell(&mut colors, 8, blob, &[0xAB, 0, 1, 4]);
    assert!(try_parse_as_metablob(&PixelGrid::new(colors, 8, 4), &blob).is_none());
    let mut colors = blank(8, 4);
    spell(&mut colors, 8, blob, &[MAGIC, 0, 2, 4]);
    assert!(try_parse_as_metablob(&PixelGrid::new(colors, 8, 4), &blob).is_none());
    let mut colors = blank(8, 4);
    fill(&mut colors, 8, blob, CLEAR);
    assert!(try_parse_as_metablob(&PixelGrid::new(colors, 8, 4), &blob).is_none());
}

#[test]
fn a_metadata_region_is_no_frame() {
    let mut colors = blank(16, 12);
    fill(&mut colors, 16, Blob::new(1, 1, 4, 4), RED);
    fill(&mut colors, 16, Blob::new(6, 1, 9, 4), RED);
    let region = Blob::new(1, 6, 8, 9);
    let mut bits = Vec::new();
    for byte in [MAGIC, 0, 1, 2] {
        for i in 0..8 {
            bits.push((byte >> i) & 1 == 1);
        }
    }
    for (k, bit) in bits.iter().enumerate() {
        let x = 1 + k % 8;
        let y = 6 + k / 8;
        colors[x + y * 16] = if *bit { WHITE } else { BLACK };
    }
    let grid = PixelGrid::new(colors, 16, 12);
    let (blobs, meta) = find_blobs(&grid);
    assert_eq!(blobs, vec![Blob::new(1, 1, 4, 4), Blob::new(6, 1, 9, 4)]);
    assert_eq!(meta.map(|m| m.pad_blob), Some(2));
    assert!(try_parse_as_metablob(&grid, &region).is_some());

    let mut anim = Anim::new();
    assert_eq!(anim.meta.num_frames, 0);
    anim.find_blobs(&grid);
    assert_eq!(anim.blobs.len(), 2);
    assert_eq!(anim.meta.num_frames, 2);
    assert_eq!(anim.meta.pad_blob, 2);
    assert_eq!(anim.meta.max_width, 4);
    assert_eq!(anim.meta.max_height, 4);
    assert_eq!(anim.meta.sum_width, 8);
    assert_eq!(anim.meta.sum_height, 8);
}

fn framed(colors: &mut Vec<Color>, width: usize, blob: Blob, border: u32) {
    fill(colors, width, blob, CLEAR);
    let inner = Blob::new(blob.x_min + border, blob.y_min + border, blob.x_max - border, blob.y_max - border);
    fill(colors, width, inner, RED);
    // the corner of the picture is cut off, as on a round sprite
    colors[inner.x_min as usize + inner.y_min as usize * width] = CLEAR;
}

#[test]
fn padding_is_the_border_that_all_frames_share() {
    let mut colors = blank(30, 12);
    let a = Blob::new(1, 1, 8, 8);
    let b = Blob::new(11, 1, 18, 8);
    framed(&mut colors, 30, a, 2);
    framed(&mut colors, 30, b, 2);
    let grid = PixelGrid::new(colors, 30, 12);
    assert_eq!(infer_one_padding(&grid, &a), 2);
    assert_eq!(infer_blob_padding(&grid, &[a, b]), 2);
}

#[test]
fn padding_is_the_least_over_the_frames() {
    let mut colors = blank(30, 12);
    let a = Blob::new(1, 1, 8, 8);
    let b = Blob::new(11, 1, 18, 8);
    let c = Blob::new(21, 1, 28, 8);
    framed(&mut colors, 30, a, 3);
    framed(&mut colors, 30, b, 1);
    framed(&mut colors, 30, c, 2);
    let grid = PixelGrid::new(colors, 30, 12);
    assert_eq!(infer_one_padding(&grid, &a), 3);
    assert_eq!(infer_one_padding(&grid, &b), 1);
    assert_eq!(infer_one_padding(&grid, &c), 2);
    assert_eq!(infer_blob_padding(&grid, &[a, b, c]), 1);
    assert_eq!(infer_blob_padding(&grid, &[a, c]), 2);
    assert_eq!(infer_blob_padding(&grid, &[]), 0);
}

#[test]
fn padding_of_an_opaque_frame_is_zero() {
    let mut colors = blank(8, 8);
    let a = Blob::new(1, 1, 5, 5);
    fill(&mut colors, 8, a, RED);
    let grid = PixelGrid::new(colors, 8, 8);
    assert_eq!(infer_one_padding(&grid, &a), 0);
}

#[test]
fn padding_counts_the_last_ring_seen_transparent() {
    // one transparent ring round a picture whose first pixel is opaque: the
    // walk has seen ring 0 only
    let mut colors = blank(8, 8);
    let a = Blob::new(1, 1, 6, 6);
    fill(&mut colors, 8, a, CLEAR);
    fill(&mut colors, 8, Blob::new(2, 2, 5, 5), RED);
    let grid = PixelGrid::new(colors, 8, 8);
    assert_eq!(infer_one_padding(&grid, &a), 0);
    // a frame that is transparent all over
    let mut colors = blank(8, 8);
    fill(&mut colors, 8, a, CLEAR);
    let grid = PixelGrid::new(colors, 8, 8);
    assert_eq!(infer_one_padding(&grid, &a), 2);
}

#[test]
fn padding_is_inferred_where_the_atlas_has_no_metadata() {
    let mut colors = blank(30, 12);
    framed(&mut colors, 30, Blob::new(1, 1, 8, 8), 2);
    framed(&mut colors, 30, Blob::new(11, 1, 20, 8), 1);
    let grid = PixelGrid::new(colors, 30, 12);
    let mut anim = Anim::new();
    anim.find_blobs(&grid);
    assert_eq!(anim.blobs, vec![Blob::new(1, 1, 8, 8), Blob::new(11, 1, 20, 8)]);
    assert_eq!(anim.meta.pad_blob, 1);
    assert_eq!(anim.meta.max_width, 10);
    assert_eq!(anim.meta.max_height, 8);
    assert_eq!(anim.meta.sum_width, 18);
    assert_eq!(anim.meta.sum_height, 16);
}

#[test]
fn figures_over_frames() {
    let blobs = [Blob::new(0, 0, 3, 1), Blob::new(5, 5, 6, 9), Blob::new(1, 1, 1, 1)];
    let meta = summarize(&blobs, 4);
    assert_eq!(meta.num_frames, 3);
    assert_eq!(meta.max_width, 4);
    assert_eq!(meta.max_height, 5);
    assert_eq!(meta.sum_width, 7);
    assert_eq!(meta.sum_height, 8);
    assert_eq!(meta.pad_blob, 4);
    let none = summarize(&[], 0);
    assert_eq!(none.num_frames, 0);
    assert_eq!(none.max_width, 0);
    assert_eq!(none.sum_height, 0);
}

#[test]
fn sorting_is_by_top_then_left_and_stable() {
    let a = Blob::new(4, 2, 9, 9);
    let b = Blob::new(1, 2, 2, 3);
    let c = Blob::new(7, 0, 8, 1);
    let d = Blob::new(1, 2, 5, 5);
    assert_eq!(sort_blobs(&vec![a, b, c, d]), vec![c, b, d, a]);
    assert_eq!(sort_blobs(&vec![d, a, c, b]), vec![c, d, b, a]);
    assert_eq!(sort_blobs(&vec![]), Vec::<Blob>::new());
}

#[test]
fn grid_access() {
    let mut colors = blank(4, 3);
    colors[3 + 2 * 4] = RED;
    colors[1] = WHITE;
    let grid = PixelGrid::new(colors, 4, 3);
    assert_eq!(grid.at(3, 2), RED);
    assert_eq!(grid.at(1, 0), WHITE);
    assert_eq!(grid.at(0, 1), MAGENTA);
    assert_eq!(grid.index(11), RED);
    assert_eq!(grid.width(), 4);
    assert_eq!(grid.height(), 3);
    assert_eq!(grid.size(), 12);
}

#[test]
fn blob_measures() {
    let blob = Blob::new(2, 3, 6, 4);
    assert_eq!((blob.x_min, blob.y_min, blob.x_max, blob.y_max), (2, 3, 6, 4));
    assert_eq!(blob.width(), 5);
    assert_eq!(blob.height(), 2);
    assert_eq!(blob.size(), 10);
    assert_eq!(blob.col_count(), 5);
    assert_eq!(blob.row_count(), 2);
    assert_eq!(blob.pixel_count(), 10);
    assert_eq!(Blob::new(5, 0, 4, 0).pixel_count(), 0);
    assert_eq!(Blob::new(0, 0, u32::MAX, u32::MAX).pixel_count(), 1u128 << 64);
}

#[test]
fn padding_of_a_narrow_tall_frame() {
    // three wide, seven high: the inner ring is a column of five pixels
    let mut colors = blank(8, 10);
    let a = Blob::new(2, 1, 4, 7);
    fill(&mut colors, 8, a, CLEAR);
    colors[3 + 4 * 8] = RED;
    let grid = PixelGrid::new(colors, 8, 10);
    assert_eq!(infer_one_padding(&grid, &a), 1);
    assert_eq!(infer_blob_padding(&grid, &[a]), 1);
}

#[test]
fn flood_marks_the_region_and_what_lies_beside_it() {
    let mut colors = blank(5, 4);
    colors[1 + 5] = RED;
    colors[2 + 5] = RED;
    let grid = PixelGrid::new(colors, 5, 4);
    let mut data = FindBlobsData::new(&grid);
    assert!(data.visit(&grid, 1, 1).is_some());
    assert_eq!(data.flood(&grid, 1, 1), Blob::new(1, 1, 2, 1));
    let marked: Vec<(usize, usize)> = (0..4)
        .flat_map(|y| (0..5).map(move |x| (x, y)))
        .filter(|&(x, y)| data.visited[x + y * 5])
        .collect();
    assert_eq!(marked, vec![(1, 0), (2, 0), (0, 1), (1, 1), (2, 1), (3, 1), (1, 2), (2, 2)]);
}
