use life_grid::color::base_color;
use life_grid::color::brightness_percent;
use life_grid::color::calculate_color;
use life_grid::color::CellColor;
use life_grid::color::MAX_ACTIVE_AGE;

#[test]
fn young_cells_use_the_active_base() {
    let c = base_color(1);
    assert_eq!(c, CellColor { red: 236, green: 68, blue: 155 });
    assert_eq!(base_color(MAX_ACTIVE_AGE), c);
}

#[test]
fn old_cells_use_the_stable_base() {
    let c = base_color(MAX_ACTIVE_AGE + 1);
    assert_eq!(c, CellColor { red: 153, green: 244, blue: 67 });
    assert_eq!(base_color(100), c);
}

#[test]
fn brightness_drops_five_percent_per_neighbor_capped_at_twenty() {
    assert_eq!(brightness_percent(0), 100);
    assert_eq!(brightness_percent(1), 95);
    assert_eq!(brightness_percent(3), 85);
    assert_eq!(brightness_percent(4), 80);
    assert_eq!(brightness_percent(8), 80);
}

#[test]
fn color_with_no_neighbors_is_the_plain_base() {
    assert_eq!(calculate_color(1, 0), CellColor { red: 236, green: 68, blue: 155 });
    assert_eq!(calculate_color(11, 0), CellColor { red: 153, green: 244, blue: 67 });
}

#[test]
fn color_is_darkened_by_crowding() {
    // active base scaled to 80 percent, channel by channel, rounded down
    assert_eq!(calculate_color(5, 8), CellColor { red: 188, green: 54, blue: 124 });
    // stable base scaled to 85 percent
    assert_eq!(calculate_color(12, 3), CellColor { red: 130, green: 207, blue: 56 });
}
