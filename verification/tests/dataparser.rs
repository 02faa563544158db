use feg::dataparser::parse_walls_from_bufread;
use feg::dataparser::DataParserErr;
use feg::terrain::Terrain;

// Strips the indentation that the lines of an indented text block share,
// and the line break that opens the block.
fn unindent(text: &str) -> String {
    let body = text.strip_prefix('\n').unwrap_or(text);
    let indent = body
        .lines()
        .filter(|line| !line.trim().is_empty())
        .map(|line| line.len() - line.trim_start().len())
        .min()
        .unwrap_or(0);
    let mut out = String::new();
    for line in body.split_inclusive('\n') {
        if line.trim().is_empty() {
            if line.ends_with('\n') {
                out.push('\n');
            }
        } else {
            out.push_str(&line[indent..]);
        }
    }
    out
}

fn lines_of(text: &str) -> Vec<Result<String, String>> {
    text.lines().map(|line| Ok(line.to_string())).collect()
}

#[test]
fn test_ok_1() {
    let walls = unindent(
        "
            0000
            00w0
            0s00
            0000
        ",
    );
    assert_eq!(walls, "0000\n00w0\n0s00\n0000\n");
    let lines = lines_of(&walls);
    let result = parse_walls_from_bufread(&lines, "", 4, 4);
    assert!(result.is_ok());
    let parsed_walls = result.unwrap();
    for (x, v) in parsed_walls.iter().enumerate() {
        for (y, terrain) in v.iter().enumerate() {
            if x == 2 && y == 1 {
                assert_eq!(terrain, &Terrain::Wall);
            } else if x == 1 && y == 2 {
                assert_eq!(terrain, &Terrain::Sand);
            } else {
                assert_eq!(terrain, &Terrain::Open);
            }
        }
    }
}

#[test]
fn parsed_map_has_the_asked_shape() {
    let lines = lines_of("0w\ns0\n");
    let terrain = parse_walls_from_bufread(&lines, "map", 3, 5).unwrap();
    assert_eq!(terrain.len(), 3);
    for column in terrain.iter() {
        assert_eq!(column.len(), 5);
    }
    assert_eq!(terrain[1][0], Terrain::Wall);
    assert_eq!(terrain[0][1], Terrain::Sand);
    assert_eq!(terrain[0][0], Terrain::Open);
    assert_eq!(terrain[1][1], Terrain::Open);
}

#[test]
fn missing_cells_are_open() {
    let lines = lines_of("w\n\nss\n");
    let terrain = parse_walls_from_bufread(&lines, "map", 3, 4).unwrap();
    assert_eq!(terrain[0][0], Terrain::Wall);
    assert_eq!(terrain[1][0], Terrain::Open);
    assert_eq!(terrain[2][0], Terrain::Open);
    assert_eq!(terrain[0][1], Terrain::Open);
    assert_eq!(terrain[0][2], Terrain::Sand);
    assert_eq!(terrain[1][2], Terrain::Sand);
    assert_eq!(terrain[2][2], Terrain::Open);
    assert_eq!(terrain[0][3], Terrain::Open);
}

#[test]
fn no_lines_give_an_open_map() {
    let lines: Vec<Result<String, String>> = Vec::new();
    let terrain = parse_walls_from_bufread(&lines, "map", 2, 2).unwrap();
    assert_eq!(terrain, vec![vec![Terrain::Open; 2]; 2]);
}

#[test]
fn too_many_lines_are_invalid() {
    let lines = lines_of("00\n00\n00\n");
    let result = parse_walls_from_bufread(&lines, "terrain.txt", 2, 2);
    assert_eq!(
        result,
        Err(DataParserErr::InvalidWallData("terrain.txt".to_string()))
    );
}

#[test]
fn a_blank_line_beyond_the_height_is_invalid() {
    let lines = lines_of("00\n00\n\n");
    let result = parse_walls_from_bufread(&lines, "terrain.txt", 2, 2);
    assert_eq!(
        result,
        Err(DataParserErr::InvalidWallData("terrain.txt".to_string()))
    );
}

#[test]
fn a_long_line_is_invalid() {
    let lines = lines_of("00\n000\n");
    let result = parse_walls_from_bufread(&lines, "terrain.txt", 2, 2);
    assert_eq!(
        result,
        Err(DataParserErr::InvalidWallData("terrain.txt".to_string()))
    );
}

#[test]
fn an_unknown_character_is_invalid() {
    let lines = lines_of("00\n0x\n");
    let result = parse_walls_from_bufread(&lines, "terrain.txt", 2, 2);
    assert_eq!(
        result,
        Err(DataParserErr::InvalidWallData("terrain.txt".to_string()))
    );
}

#[test]
fn the_one_bit_alphabet_is_not_read() {
    let lines = lines_of("01\n");
    let result = parse_walls_from_bufread(&lines, "terrain.txt", 2, 2);
    assert_eq!(
        result,
        Err(DataParserErr::InvalidWallData("terrain.txt".to_string()))
    );
}

#[test]
fn a_read_error_is_passed_on() {
    let lines = vec![
        Ok("00".to_string()),
        Err("stream did not contain valid UTF-8".to_string()),
    ];
    let result = parse_walls_from_bufread(&lines, "terrain.txt", 2, 2);
    assert_eq!(
        result,
        Err(DataParserErr::Io(
            "stream did not contain valid UTF-8".to_string()
        ))
    );
}

#[test]
fn the_first_fault_decides() {
    let lines = vec![
        Ok("0x".to_string()),
        Err("broken pipe".to_string()),
    ];
    let result = parse_walls_from_bufread(&lines, "terrain.txt", 2, 2);
    assert_eq!(
        result,
        Err(DataParserErr::InvalidWallData("terrain.txt".to_string()))
    );
    let lines = vec![
        Err("broken pipe".to_string()),
        Ok("0x".to_string()),
    ];
    let result = parse_walls_from_bufread(&lines, "terrain.txt", 2, 2);
    assert_eq!(result, Err(DataParserErr::Io("broken pipe".to_string())));
}

#[test]
fn a_read_error_beyond_the_height_is_invalid_data() {
    let lines = vec![
        Ok("00".to_string()),
        Err("broken pipe".to_string()),
    ];
    let result = parse_walls_from_bufread(&lines, "terrain.txt", 2, 1);
    assert_eq!(
        result,
        Err(DataParserErr::InvalidWallData("terrain.txt".to_string()))
    );
}
