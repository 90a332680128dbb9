use uav_optimizer::map_parser::MapParser;
use uav_optimizer::terrain::{Point, Terrain, TerrainType};

fn kinds(terrain: &Terrain) -> Vec<Vec<TerrainType>> {
    (0..terrain.get_height())
        .map(|y| (0..terrain.get_width()).map(|x| terrain.get_terrain(x, y)).collect())
        .collect()
}

#[test]
fn characters_and_classes() {
    let parser = MapParser::new();
    assert_eq!(parser.char_to_terrain_type('.'), TerrainType::Normal);
    assert_eq!(parser.char_to_terrain_type('^'), TerrainType::Hill);
    assert_eq!(parser.char_to_terrain_type('O'), TerrainType::Obstacle);
    assert_eq!(parser.char_to_terrain_type('o'), TerrainType::Obstacle);
    assert_eq!(parser.char_to_terrain_type('W'), TerrainType::WindZone);
    assert_eq!(parser.char_to_terrain_type('w'), TerrainType::WindZone);
    assert_eq!(parser.char_to_terrain_type('S'), TerrainType::Start);
    assert_eq!(parser.char_to_terrain_type('s'), TerrainType::Start);
    assert_eq!(parser.char_to_terrain_type('D'), TerrainType::End);
    assert_eq!(parser.char_to_terrain_type('d'), TerrainType::End);
    assert_eq!(parser.char_to_terrain_type('x'), TerrainType::Normal);
    assert_eq!(parser.char_to_terrain_type(' '), TerrainType::Normal);
    assert_eq!(parser.char_to_terrain_type('0'), TerrainType::Normal);
    assert_eq!(parser.terrain_type_to_char(TerrainType::Normal), '.');
    assert_eq!(parser.terrain_type_to_char(TerrainType::Hill), '^');
    assert_eq!(parser.terrain_type_to_char(TerrainType::Obstacle), 'O');
    assert_eq!(parser.terrain_type_to_char(TerrainType::WindZone), 'W');
    assert_eq!(parser.terrain_type_to_char(TerrainType::Start), 'S');
    assert_eq!(parser.terrain_type_to_char(TerrainType::End), 'D');
}

#[test]
fn lines_are_split_trimmed_and_filtered() {
    let parser = MapParser::new();
    assert_eq!(parser.parse_map_lines("ab\ncd\n"), vec!["ab", "cd"]);
    assert_eq!(parser.parse_map_lines("ab\ncd"), vec!["ab", "cd"]);
    assert_eq!(parser.parse_map_lines("ab\r\ncd\r\n"), vec!["ab", "cd"]);
    assert_eq!(parser.parse_map_lines("ab\r\r\ncd\r"), vec!["ab", "cd"]);
    assert_eq!(parser.parse_map_lines("\n\nab\n\n\ncd\n\n"), vec!["ab", "cd"]);
    assert_eq!(parser.parse_map_lines("a\rb\r\n"), vec!["a\rb"]);
    assert_eq!(parser.parse_map_lines("\r\rab"), vec!["\r\rab"]);
    assert!(parser.parse_map_lines("").is_empty());
    assert!(parser.parse_map_lines("\n").is_empty());
    assert!(parser.parse_map_lines("\r\n\r\n").is_empty());
    assert!(parser.parse_map_lines("\r").is_empty());
}

#[test]
fn line_splitting_agrees_with_the_standard_library() {
    let parser = MapParser::new();
    for text in [
        "..\n..\n",
        "a\r\nb\rc\r\n\r\nd",
        "\r\n",
        "x",
        "\n\r\n\rq\r\r\r\n",
        "S.^\r\nO.W\r\n..D",
        "é.\n.é\n",
    ] {
        let expected: Vec<String> = text
            .lines()
            .map(|line| line.trim_end_matches('\r').to_string())
            .filter(|line| !line.is_empty())
            .collect();
        assert_eq!(parser.parse_map_lines(text), expected);
    }
}

#[test]
fn dimensions_are_validated() {
    let parser = MapParser::new();
    let lines = |rows: &[&str]| rows.iter().map(|r| r.to_string()).collect::<Vec<String>>();
    assert!(!parser.validate_map_dimensions(&Vec::new()));
    assert!(parser.validate_map_dimensions(&lines(&["abc"])));
    assert!(parser.validate_map_dimensions(&lines(&["abc", "def", "ghi"])));
    assert!(!parser.validate_map_dimensions(&lines(&["abc", "de"])));
    assert!(!parser.validate_map_dimensions(&lines(&["ab", "cde"])));
    assert!(!parser.validate_map_dimensions(&lines(&["abc", "def", ""])));
    assert!(parser.validate_map_dimensions(&lines(&["", ""])));
}

#[test]
fn map_is_loaded_cell_by_cell() {
    let parser = MapParser::new();
    let terrain = parser.load_map_from_string("S.^\nOoW\nwsd\nD?.\n").ok().unwrap();
    assert_eq!(terrain.get_width(), 3);
    assert_eq!(terrain.get_height(), 4);
    assert_eq!(
        kinds(&terrain),
        vec![
            vec![TerrainType::Start, TerrainType::Normal, TerrainType::Hill],
            vec![TerrainType::Obstacle, TerrainType::Obstacle, TerrainType::WindZone],
            vec![TerrainType::WindZone, TerrainType::Start, TerrainType::End],
            vec![TerrainType::End, TerrainType::Normal, TerrainType::Normal],
        ]
    );
    for y in 0..4 {
        for x in 0..3 {
            let kind = terrain.get_terrain(x, y);
            let elevation = if kind == TerrainType::Hill { 3000 } else { 0 };
            let wind = if kind == TerrainType::WindZone { 2000 } else { 0 };
            assert_eq!(terrain.get_elevation(x, y), elevation);
            assert_eq!(terrain.get_wind_resistance(x, y), wind);
        }
    }
    assert_eq!(terrain.get_movement_cost(&Point::new(2, 0)), 4500);
    assert_eq!(terrain.get_movement_cost(&Point::new(2, 1)), 2600);
    assert_eq!(terrain.get_movement_cost(&Point::new(0, 1)), 1_000_000);
}

#[test]
fn carriage_returns_and_blank_lines_are_no_rows() {
    let parser = MapParser::new();
    let terrain = parser.load_map_from_string("\r\n.O\r\n\r\n^.\r\n\n").ok().unwrap();
    assert_eq!(terrain.get_width(), 2);
    assert_eq!(terrain.get_height(), 2);
    assert_eq!(
        kinds(&terrain),
        vec![
            vec![TerrainType::Normal, TerrainType::Obstacle],
            vec![TerrainType::Hill, TerrainType::Normal],
        ]
    );
}

#[test]
fn every_character_is_one_cell() {
    let parser = MapParser::new();
    let terrain = parser.load_map_from_string("é^\n.W\n").ok().unwrap();
    assert_eq!(terrain.get_width(), 2);
    assert_eq!(terrain.get_height(), 2);
    assert_eq!(terrain.get_terrain(0, 0), TerrainType::Normal);
    assert_eq!(terrain.get_terrain(1, 0), TerrainType::Hill);
    assert_eq!(terrain.get_terrain(1, 1), TerrainType::WindZone);
}

#[test]
fn empty_map_is_rejected() {
    let parser = MapParser::new();
    for text in ["", "\n", "\r\n\r\n", "\n\n\n", "\r"] {
        assert_eq!(
            parser.load_map_from_string(text).err(),
            Some("Empty map data".to_string())
        );
    }
    assert_eq!(
        parser.terrain_from_lines(&Vec::new()).err(),
        Some("Empty map data".to_string())
    );
}

#[test]
fn ragged_map_is_rejected() {
    let parser = MapParser::new();
    for text in ["...\n..\n", "..\n...\n", ".\n..\n.\n", "..\r\n.\r\n"] {
        assert_eq!(
            parser.load_map_from_string(text).err(),
            Some("Invalid map dimensions - all rows must have same length".to_string())
        );
    }
    let lines = vec!["..".to_string(), "".to_string()];
    assert_eq!(
        parser.terrain_from_lines(&lines).err(),
        Some("Invalid map dimensions - all rows must have same length".to_string())
    );
}

#[test]
fn rows_of_no_cells_make_a_terrain_without_cells() {
    let parser = MapParser::new();
    let lines = vec!["".to_string(), "".to_string()];
    let terrain = parser.terrain_from_lines(&lines).ok().unwrap();
    assert_eq!(terrain.get_width(), 0);
    assert_eq!(terrain.get_height(), 2);
}

#[test]
fn terrain_is_encoded_row_by_row() {
    let parser = MapParser::new();
    let mut terrain = Terrain::new(3, 2);
    terrain.set_terrain(0, 0, TerrainType::Start);
    terrain.set_terrain(2, 0, TerrainType::Hill);
    terrain.set_terrain(0, 1, TerrainType::Obstacle);
    terrain.set_terrain(1, 1, TerrainType::WindZone);
    terrain.set_terrain(2, 1, TerrainType::End);
    assert_eq!(parser.terrain_to_string(&terrain), "S.^\nOWD\n");
    assert_eq!(parser.terrain_to_string(&Terrain::new(0, 0)), "");
    assert_eq!(parser.terrain_to_string(&Terrain::new(0, 2)), "\n\n");
    assert_eq!(parser.terrain_to_string(&Terrain::new(2, 1)), "..\n");
}

#[test]
fn encoding_and_parsing_again_keeps_the_classes() {
    let parser = MapParser::new();
    let mut small = Terrain::new(4, 3);
    small.set_terrain(1, 0, TerrainType::Hill);
    small.set_terrain(3, 2, TerrainType::Obstacle);
    small.set_terrain(0, 1, TerrainType::WindZone);
    small.set_terrain(0, 0, TerrainType::Start);
    small.set_terrain(3, 0, TerrainType::End);
    small.set_elevation(2, 2, 7000);
    for terrain in [small, parser.create_sample_map(), parser.create_complex_map(), Terrain::new(1, 1)] {
        let text = parser.terrain_to_string(&terrain);
        let again = parser.load_map_from_string(&text).ok().unwrap();
        assert_eq!(again.get_width(), terrain.get_width());
        assert_eq!(again.get_height(), terrain.get_height());
        assert_eq!(kinds(&again), kinds(&terrain));
        assert_eq!(parser.terrain_to_string(&again), text);
    }
}

#[test]
fn terrain_without_cells_does_not_survive_the_round_trip() {
    let parser = MapParser::new();
    let text = parser.terrain_to_string(&Terrain::new(0, 3));
    assert_eq!(parser.load_map_from_string(&text).err(), Some("Empty map data".to_string()));
}

#[test]
fn small_built_in_map() {
    let parser = MapParser::new();
    let terrain = parser.create_sample_map();
    assert_eq!(
        parser.terrain_to_string(&terrain),
        "...........\n\
         ..O.O.O....\n\
         ...........\n\
         .O..^..O...\n\
         ...........\n\
         ...W.W.W...\n\
         ...........\n\
         .O..^..O...\n\
         ...........\n\
         ..O.O.O....\n\
         ...........\n"
    );
    assert_eq!(terrain.get_width(), 11);
    assert_eq!(terrain.get_height(), 11);
    assert_eq!(terrain.get_elevation(4, 3), 3000);
    assert_eq!(terrain.get_wind_resistance(3, 5), 2000);
    assert_eq!(terrain.get_elevation(3, 5), 0);
}

#[test]
fn large_built_in_map() {
    let parser = MapParser::new();
    let terrain = parser.create_complex_map();
    assert_eq!(
        parser.terrain_to_string(&terrain),
        "..O.......O.......O..\n\
         .O..^^^^^..O.WWW.O...\n\
         O....^^^....W.W.W...O\n\
         .....^.^.....W.W.....\n\
         ..O...^...O...W...O..\n\
         ......^..............\n\
         ..OOO.^.OOO.WWW.OOO..\n\
         ......^..............\n\
         ..O...^...O...W...O..\n\
         .....^.^.....W.W.....\n\
         O....^^^....W.W.W...O\n\
         .O..^^^^^..O.WWW.O...\n\
         ..O.......O.......O..\n"
    );
    assert_eq!(terrain.get_width(), 21);
    assert_eq!(terrain.get_height(), 13);
    assert_eq!(terrain.get_elevation(6, 5), 3000);
    assert_eq!(terrain.get_wind_resistance(14, 4), 2000);
}
