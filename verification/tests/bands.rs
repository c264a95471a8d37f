use mcrs_minecraft_worldgen::material::bands::{ClayBands, ClayDraw, ClayStage};

const COLOURS: [u16; 7] = [10, 11, 12, 13, 14, 15, 16];

/// Paints with every integer draw `value % bound` and every coin heads.
fn paint(value: i32) -> (Vec<u16>, Vec<ClayDraw>) {
    let mut table = ClayBands::new(COLOURS);
    let mut draws = Vec::new();
    loop {
        let draw = table.request();
        draws.push(draw);
        match draw {
            ClayDraw::Below(bound) => table.feed(value % bound),
            ClayDraw::Coin => table.feed(1),
            ClayDraw::Done => return (table.bands().to_vec(), draws),
        }
    }
}

#[test]
fn the_orange_pass_starts_one_past_each_gap() {
    let mut table = ClayBands::new(COLOURS);
    assert_eq!(table.request(), ClayDraw::Below(5));
    table.feed(0);
    table.feed(2);
    let (bands, _) = paint(0);
    assert_eq!(bands.len(), 192);
    // with every gap zero, orange lands on every odd entry until the later
    // passes paint over it
    assert_eq!(bands[191], 11);
}

#[test]
fn every_band_is_a_colour_of_the_palette() {
    for value in [0, 1, 2, 7, 191] {
        let (bands, draws) = paint(value);
        assert_eq!(bands.len(), 192);
        assert!(bands.iter().all(|b| COLOURS.contains(b)));
        assert_eq!(draws.last(), Some(&ClayDraw::Done));
    }
}

#[test]
fn the_passes_ask_for_their_draws_in_order() {
    let (_, draws) = paint(0);
    // 96 orange gaps of zero, then six yellow bands
    assert!(draws[..96].iter().all(|d| *d == ClayDraw::Below(5)));
    assert_eq!(draws[96], ClayDraw::Below(10));
    assert_eq!(draws[97], ClayDraw::Below(3));
    assert_eq!(draws[98], ClayDraw::Below(192));
    let whites = draws.iter().filter(|d| **d == ClayDraw::Below(7)).count();
    assert_eq!(whites, 1);
}

#[test]
fn a_fresh_table_is_plain_terracotta() {
    let table = ClayBands::new(COLOURS);
    assert!(table.bands().iter().all(|b| *b == 10));
    assert!(!table.is_done());
    let _ = ClayStage::Done;
}
