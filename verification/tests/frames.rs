use sprite_atlas::anim::Anim;
use sprite_atlas::blob::Blob;
use sprite_atlas::entity::HitRequest;
use sprite_atlas::entity::NO_ID;
use sprite_atlas::frames::dest_rect;
use sprite_atlas::frames::draw_at_position;
use sprite_atlas::frames::frame_index;
use sprite_atlas::frames::source_rect;
use sprite_atlas::frames::Anchor;
use sprite_atlas::frames::Rect;
use sprite_atlas::log;
use sprite_atlas::music::MusicStatus;
use sprite_atlas::u32_bool::Bool;

#[test]
fn frame_index_counts_and_wraps() {
    assert_eq!(frame_index(0, 100, 4), 0);
    assert_eq!(frame_index(99, 100, 4), 0);
    assert_eq!(frame_index(100, 100, 4), 1);
    assert_eq!(frame_index(399, 100, 4), 3);
    assert_eq!(frame_index(400, 100, 4), 0);
    assert_eq!(frame_index(1234, 100, 5), 2);
    assert_eq!(frame_index(u64::MAX, 1, 7), (u64::MAX % 7) as usize);
    assert_eq!(frame_index(5, 1, 1), 0);
}

#[test]
fn frame_index_is_periodic() {
    for t in [0u64, 1, 99, 100, 250, 1234] {
        for n in 0u64..5 {
            assert_eq!(frame_index(t + n * 100 * 6, 100, 6), frame_index(t, 100, 6));
        }
    }
}

#[test]
fn source_rect_shrinks_on_all_sides() {
    let blob = Blob::new(10, 20, 19, 27);
    assert_eq!(source_rect(&blob, 0), Rect { x: 10, y: 20, width: 10, height: 8 });
    assert_eq!(source_rect(&blob, 2), Rect { x: 12, y: 22, width: 6, height: 4 });
}

#[test]
fn source_rect_is_not_clamped() {
    let blob = Blob::new(10, 20, 19, 27);
    assert_eq!(source_rect(&blob, 4), Rect { x: 14, y: 24, width: 2, height: 0 });
    assert_eq!(source_rect(&blob, 6), Rect { x: 16, y: 26, width: -2, height: -4 });
    let far = Blob::new(u32::MAX, u32::MAX, u32::MAX, u32::MAX);
    assert_eq!(
        source_rect(&far, u32::MAX),
        Rect { x: 2 * (u32::MAX as i64), y: 2 * (u32::MAX as i64), width: 1 - 2 * (u32::MAX as i64), height: 1 - 2 * (u32::MAX as i64) }
    );
}

#[test]
fn dest_rect_follows_the_anchor() {
    let blob = Blob::new(3, 4, 12, 9);
    assert_eq!(dest_rect(100, 200, 3, Anchor::TopLeft, &blob), Rect { x: 100, y: 200, width: 30, height: 18 });
    assert_eq!(dest_rect(100, 200, 3, Anchor::CenterCenter, &blob), Rect { x: 85, y: 191, width: 30, height: 18 });
    assert_eq!(dest_rect(100, 200, 3, Anchor::BottomCenter, &blob), Rect { x: 85, y: 182, width: 30, height: 18 });
    assert_eq!(dest_rect(-5, -5, 1, Anchor::CenterCenter, &Blob::new(0, 0, 2, 2)), Rect { x: -6, y: -6, width: 3, height: 3 });
    assert_eq!(dest_rect(0, 0, 0, Anchor::BottomCenter, &blob), Rect { x: 0, y: 0, width: 0, height: 0 });
    assert!(Anchor::Center == Anchor::CenterCenter);
}

#[test]
fn anchors_have_codes() {
    assert!(Anchor::try_from(0u8) == Ok(Anchor::TopLeft));
    assert!(Anchor::try_from(1u8) == Ok(Anchor::CenterCenter));
    assert!(Anchor::try_from(2u8) == Ok(Anchor::BottomCenter));
    assert!(Anchor::try_from(3u8) == Err(()));
    assert!(Anchor::try_from(255u8) == Err(()));
}

#[test]
fn a_draw_picks_the_frame_of_the_moment() {
    let blobs = [Blob::new(0, 0, 9, 9), Blob::new(10, 0, 19, 9), Blob::new(20, 0, 29, 9)];
    let (source, dest) = draw_at_position(50, 60, &blobs, 420, 100, 2, Anchor::BottomCenter, 1);
    assert_eq!(source, Rect { x: 11, y: 1, width: 8, height: 8 });
    assert_eq!(dest, Rect { x: 40, y: 40, width: 20, height: 20 });
    let mut anim = Anim::new();
    anim.blobs = blobs.to_vec();
    anim.meta.pad_blob = 2;
    let (source, dest) = anim.draw(0, 0, 1, Anchor::TopLeft, 250, 100);
    assert_eq!(source, Rect { x: 22, y: 2, width: 6, height: 6 });
    assert_eq!(dest, Rect { x: 0, y: 0, width: 10, height: 10 });
}

#[test]
fn log_records_carry_level_and_text() {
    assert_eq!((log::ALL, log::TRACE, log::DEBUG, log::INFO), (0, 1, 2, 3));
    assert_eq!((log::WARNING, log::ERROR, log::FATAL, log::NONE), (4, 5, 6, 999));
    let r = log::info("a");
    assert_eq!((r.level, r.text.as_str()), (3, "a"));
    let r = log::error("b");
    assert_eq!((r.level, r.text.as_str()), (5, "b"));
    let r = log::warning("c");
    assert_eq!((r.level, r.text.as_str()), (4, "c"));
    let r = log::debug("d");
    assert_eq!((r.level, r.text.as_str()), (2, "d"));
    let r = log::trace("e");
    assert_eq!((r.level, r.text.as_str()), (1, "e"));
    let r = log::fatal("f");
    assert_eq!((r.level, r.text.as_str()), (6, "f"));
}

#[test]
fn log_lines_are_tagged() {
    assert_eq!(log::format_line(log::INFO, "up", "<", ">"), "[<INFO>] : up");
    assert_eq!(log::format_line(log::WARNING, "hm", "", ""), "[WARN] : hm");
    assert_eq!(log::format_line(log::ERROR, "", "\x1b[91m", "\x1b[0m"), "[\x1b[91mERROR\x1b[0m] : ");
    assert_eq!(log::format_line(log::FATAL, "x", "a", "b"), "[aFATALb] : x");
    assert_eq!(log::format_line(log::DEBUG, "x", "a", "b"), "[aDEBUGb] : x");
    assert_eq!(log::format_line(log::TRACE, "x", "a", "b"), "[aTRACEb] : x");
    assert_eq!(log::format_line(log::NONE, "bare", "a", "b"), "bare");
    assert_eq!(log::format_line(log::ALL, "bare", "a", "b"), "bare");
    assert_eq!(log::format_line(-3, "bare", "a", "b"), "bare");
    assert_eq!(log::level_tag(log::WARNING), "WARN");
    assert_eq!(log::level_tag(77), "");
    assert!(log::level_color(log::INFO) == log::TagColor::Green);
    assert!(log::level_color(log::ERROR) == log::TagColor::Red);
    assert!(log::level_color(log::FATAL) == log::TagColor::Red);
    assert!(log::level_color(log::WARNING) == log::TagColor::Yellow);
    assert!(log::level_color(log::DEBUG) == log::TagColor::Cyan);
    assert!(log::level_color(log::TRACE) == log::TagColor::Magenta);
    assert!(log::level_color(log::NONE) == log::TagColor::Plain);
}

#[test]
fn four_byte_bools() {
    assert_eq!(Bool::from(true).value, 1);
    assert_eq!(Bool::from(false).value, 0);
    assert_eq!((!Bool { value: 0 }).value, 1);
    assert_eq!((!Bool { value: 1 }).value, 0);
    assert_eq!((!Bool { value: 17 }).value, 0);
    assert!(bool::from(Bool { value: 17 }));
    assert!(!bool::from(Bool { value: 0 }));
    assert!(Bool { value: 2 }.bool());
    assert_eq!(u32::from(Bool { value: 17 }), 17);
}

#[test]
fn music_status_codes() {
    assert!(MusicStatus::from(-1) == MusicStatus::NotFound);
    assert!(MusicStatus::from(0) == MusicStatus::NotLoaded);
    assert!(MusicStatus::from(1) == MusicStatus::Loaded);
    assert!(MusicStatus::Loaded.is_music_loaded());
    assert!(MusicStatus::NotFound.is_music_loaded());
    assert!(!MusicStatus::NotLoaded.is_music_loaded());
}

#[test]
fn hit_requests_name_a_target() {
    let hit = HitRequest { target: 12, damage: 1 };
    assert_eq!((hit.target, hit.damage), (12, 1));
    assert_eq!(NO_ID, 0);
}
