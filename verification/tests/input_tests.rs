use wasm_games::text::{self, TextInput};
use wasm_games::voxeldash::{self, HeightMap};

#[test]
fn trim_name_strips_white_space() {
    assert_eq!(text::trim_name(&"  Ada \t\n".to_string()), "Ada");
    assert_eq!(text::trim_name(&"   ".to_string()), "");
    assert_eq!(text::trim_name(&"Bo b".to_string()), "Bo b");
    assert_eq!(text::trim_name(&"\u{3000}\u{a0}Ada\u{2009}\u{85}".to_string()), "Ada");
    assert_eq!(text::trim_name(&"\u{200b}Ada".to_string()), "\u{200b}Ada");
}

#[test]
fn text_input_first_update_is_skipped() {
    let mut t = TextInput::new(8, "AB".to_string());
    assert!(!t.begin_update());
    assert!(t.begin_update());
    assert_eq!(t.content, "AB");
}

#[test]
fn text_input_accepts_letters_digits_space() {
    let mut t = TextInput::new(4, String::new());
    t.type_char('a');
    t.type_char('1');
    t.type_char(' ');
    t.type_char('!');
    t.type_char('Z');
    t.type_char('Q');
    assert_eq!(t.content, "a1 Z");
    t.backspace();
    assert_eq!(t.content, "a1 ");
    t.backspace();
    t.backspace();
    t.backspace();
    t.backspace();
    assert_eq!(t.content, "");
}

#[test]
fn text_input_limit_counts_bytes() {
    let mut t = TextInput::new(3, String::new());
    t.type_char('é');
    t.type_char('x');
    assert_eq!(t.content, "éx");
    t.type_char('y');
    assert_eq!(t.content, "éx");
}

#[test]
fn keys_are_counted() {
    let k = voxeldash::read_keys(&vec![87, 38, 83, 65, 68, 39, 39, 32, 16, 69, 200]);
    assert_eq!(k.forward, 2);
    assert_eq!(k.back, 1);
    assert_eq!(k.left, 1);
    assert_eq!(k.right, 3);
    assert!(k.jump && k.lifting && k.carving);
    let none = voxeldash::read_keys(&vec![]);
    assert_eq!((none.forward, none.back, none.left, none.right), (0, 0, 0, 0));
    assert!(!none.jump && !none.lifting && !none.carving);
}

#[test]
fn cells_are_clamped() {
    assert_eq!(voxeldash::cell_of(0), 15);
    assert_eq!(voxeldash::cell_of(-20), 0);
    assert_eq!(voxeldash::cell_of(20), 30);
    assert_eq!(voxeldash::cell_of(-15), 0);
    assert_eq!(voxeldash::cell_of(i32::MIN), 0);
}

#[test]
fn terrain_floor_applied() {
    let noise: Vec<i32> = (0..961).map(|i| (i % 9) as i32 - 5).collect();
    let m = HeightMap::from_noise(&noise);
    for i in 0..961 {
        assert_eq!(m.heights[i], noise[i].max(-2));
    }
    assert_eq!(m.height_at(1, 2), noise[33].max(-2));
}

#[test]
fn carving_in_the_middle_lowers_five_by_five() {
    let mut m = HeightMap::from_noise(&vec![0; 961]);
    m.carve(10, 10, true);
    for x in 0..31 {
        for z in 0..31 {
            let inside = (8..=12).contains(&x) && (8..=12).contains(&z);
            assert_eq!(m.height_at(x, z), if inside { -1 } else { 0 });
        }
    }
    m.carve(10, 10, false);
    assert_eq!(m.height_at(10, 10), -1);
}

#[test]
fn carving_at_the_corner_hits_clamped_cells_repeatedly() {
    let mut m = HeightMap::from_noise(&vec![5; 961]);
    m.carve(0, 0, true);
    // Offsets -2, -1 and 0 all clamp to 0, so the corner is visited 3 x 3 times.
    assert_eq!(m.height_at(0, 0), -3);
    assert_eq!(m.height_at(1, 0), 2);
    assert_eq!(m.height_at(1, 1), 4);
    assert_eq!(m.height_at(2, 2), 4);
    assert_eq!(m.height_at(3, 0), 5);
    let mut low = HeightMap::from_noise(&vec![-2; 961]);
    low.carve(15, 15, true);
    low.carve(15, 15, true);
    assert_eq!(low.height_at(15, 15), -3);
}
