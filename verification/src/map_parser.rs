//! The map encoding: one character per cell, rows separated by newlines.

use crate::terrain::{
    symbol, Grid, Terrain, TerrainType, HILL_ELEVATION, WIND_ZONE_RESISTANCE,
};
use crate::text::push_char;
use vstd::prelude::*;
use vstd::string::*;

verus! {

/// The terrain class that a character of the encoding stands for. Every
/// character without a meaning of its own stands for `Normal`.
pub open spec fn kind_of(c: char) -> TerrainType {
    if c == '^' {
        TerrainType::Hill
    } else if c == 'O' || c == 'o' {
        TerrainType::Obstacle
    } else if c == 'W' || c == 'w' {
        TerrainType::WindZone
    } else if c == 'S' || c == 's' {
        TerrainType::Start
    } else if c == 'D' || c == 'd' {
        TerrainType::End
    } else {
        TerrainType::Normal
    }
}

/// The pieces of `text` between its newlines. A text without a newline is
/// one piece; a text that ends in a newline has an empty last piece.
pub open spec fn split_lines(text: Seq<char>) -> Seq<Seq<char>>
    decreases text.len(),
{
    if text.len() == 0 {
        seq![Seq::empty()]
    } else {
        let before = split_lines(text.drop_last());
        if text.last() == '\n' {
            before.push(Seq::empty())
        } else {
            before.update(before.len() - 1, before.last().push(text.last()))
        }
    }
}

/// `line` without the carriage returns at its end.
pub open spec fn trim_returns(line: Seq<char>) -> Seq<char>
    decreases line.len(),
{
    if line.len() > 0 && line.last() == '\r' {
        trim_returns(line.drop_last())
    } else {
        line
    }
}

/// The pieces that are rows of a map: each trimmed of the carriage
/// returns at its end, and dropped when nothing is left of it.
pub open spec fn kept_rows(pieces: Seq<Seq<char>>) -> Seq<Seq<char>>
    decreases pieces.len(),
{
    if pieces.len() == 0 {
        Seq::empty()
    } else {
        let before = kept_rows(pieces.drop_last());
        let row = trim_returns(pieces.last());
        if row.len() > 0 {
            before.push(row)
        } else {
            before
        }
    }
}

/// The rows of the map that `text` encodes.
pub open spec fn map_rows(text: Seq<char>) -> Seq<Seq<char>> {
    kept_rows(split_lines(text))
}

/// Whether `text` holds nothing but line breaks.
pub open spec fn blank(text: Seq<char>) -> bool {
    forall|i: int| 0 <= i < text.len() ==> text[i] == '\n' || text[i] == '\r'
}

/// Whether there is a row and all rows are as long as the first.
pub open spec fn uniform(rows: Seq<Seq<char>>) -> bool {
    &&& rows.len() > 0
    &&& forall|y: int| 0 <= y < rows.len() ==> (#[trigger] rows[y]).len() == rows[0].len()
}

/// The elevation that the encoding gives to a cell of the given class.
pub open spec fn elevation_of(kind: TerrainType) -> u32 {
    if kind == TerrainType::Hill {
        HILL_ELEVATION
    } else {
        0
    }
}

/// The wind resistance that the encoding gives to a cell of the given
/// class.
pub open spec fn wind_of(kind: TerrainType) -> u32 {
    if kind == TerrainType::WindZone {
        WIND_ZONE_RESISTANCE
    } else {
        0
    }
}

/// The grid in which the cells before column `x` of row `y` are those of
/// `rows` and all later cells are still blank.
pub open spec fn grid_upto(rows: Seq<Seq<char>>, y: int, x: int) -> Grid {
    let width = rows[0].len();
    let height = rows.len();
    Grid {
        width,
        height,
        kinds: Seq::new(
            height,
            |j: int|
                Seq::new(
                    width,
                    |i: int|
                        if j < y || (j == y && i < x) {
                            kind_of(rows[j][i])
                        } else {
                            TerrainType::Normal
                        },
                ),
        ),
        elevations: Seq::new(
            height,
            |j: int|
                Seq::new(
                    width,
                    |i: int|
                        if j < y || (j == y && i < x) {
                            elevation_of(kind_of(rows[j][i]))
                        } else {
                            0u32
                        },
                ),
        ),
        winds: Seq::new(
            height,
            |j: int|
                Seq::new(
                    width,
                    |i: int|
                        if j < y || (j == y && i < x) {
                            wind_of(kind_of(rows[j][i]))
                        } else {
                            0u32
                        },
                ),
        ),
    }
}

/// The grid that uniform rows encode: each cell has the class of its
/// character, hills an elevation of three units and wind zones a wind
/// resistance of two.
pub open spec fn grid_of(rows: Seq<Seq<char>>) -> Grid {
    grid_upto(rows, rows.len() as int, 0)
}

/// The characters of a row of classes.
pub open spec fn encoded_row(kinds: Seq<TerrainType>) -> Seq<char> {
    Seq::new(kinds.len(), |x: int| symbol(kinds[x]))
}

/// The encoding of the first `y` rows: each row followed by a newline.
pub open spec fn encoded_upto(grid: Grid, y: nat) -> Seq<char>
    decreases y,
{
    if y == 0 {
        Seq::empty()
    } else {
        encoded_upto(grid, (y - 1) as nat) + encoded_row(grid.kinds[y - 1]).push('\n')
    }
}

/// The encoding of a grid.
pub open spec fn encoded(grid: Grid) -> Seq<char> {
    encoded_upto(grid, grid.height)
}

/// The rows of the small built-in map.
pub open spec fn sample_rows() -> Seq<Seq<char>> {
    seq![
        "..........."@,
        "..O.O.O...."@,
        "..........."@,
        ".O..^..O..."@,
        "..........."@,
        "...W.W.W..."@,
        "..........."@,
        ".O..^..O..."@,
        "..........."@,
        "..O.O.O...."@,
        "..........."@,
    ]
}

/// The rows of the large built-in map.
pub open spec fn complex_rows() -> Seq<Seq<char>> {
    seq![
        "..O.......O.......O.."@,
        ".O..^^^^^..O.WWW.O..."@,
        "O....^^^....W.W.W...O"@,
        ".....^.^.....W.W....."@,
        "..O...^...O...W...O.."@,
        "......^.............."@,
        "..OOO.^.OOO.WWW.OOO.."@,
        "......^.............."@,
        "..O...^...O...W...O.."@,
        ".....^.^.....W.W....."@,
        "O....^^^....W.W.W...O"@,
        ".O..^^^^^..O.WWW.O..."@,
        "..O.......O.......O.."@,
    ]
}

/// A piece that ends in carriage returns only is trimmed to what stands
/// before them.
pub proof fn lemma_trim_returns(line: Seq<char>, held: Seq<char>)
    requires
        line.len() == 0 || line.last() != '\r',
        forall|i: int| 0 <= i < held.len() ==> held[i] == '\r',
    ensures
        trim_returns(line + held) == line,
    decreases held.len(),
{
    if held.len() == 0 {
        assert(line + held =~= line);
    } else {
        let all = line + held;
        assert(all.last() == '\r');
        assert(all.drop_last() =~= line + held.drop_last());
        lemma_trim_returns(line, held.drop_last());
    }
}

/// Reads and writes the map encoding.
pub struct MapParser {}

impl MapParser {
    pub fn new() -> (parser: MapParser) {
        MapParser {  }
    }

    /// The terrain class that a character stands for.
    pub fn char_to_terrain_type(&self, c: char) -> (kind: TerrainType)
        ensures
            kind == kind_of(c),
    {
        match c {
            '.' => TerrainType::Normal,
            '^' => TerrainType::Hill,
            'O' | 'o' => TerrainType::Obstacle,
            'W' | 'w' => TerrainType::WindZone,
            'S' | 's' => TerrainType::Start,
            'D' | 'd' => TerrainType::End,
            _ => TerrainType::Normal,
        }
    }

    /// The character that stands for a terrain class.
    pub fn terrain_type_to_char(&self, terrain_type: TerrainType) -> (c: char)
        ensures
            c == symbol(terrain_type),
    {
        match terrain_type {
            TerrainType::Normal => '.',
            TerrainType::Hill => '^',
            TerrainType::Obstacle => 'O',
            TerrainType::WindZone => 'W',
            TerrainType::Start => 'S',
            TerrainType::End => 'D',
        }
    }

    /// The rows of the map that `content` encodes: its lines without the
    /// carriage returns at their ends, the empty ones left out.
    pub fn parse_map_lines(&self, content: &str) -> (lines: Vec<String>)
        ensures
            lines.deep_view() == map_rows(content@),
    {
        let mut lines: Vec<String> = Vec::new();
        let mut current = String::new();
        let mut held = String::new();
        proof {
            assert(content@.take(0) =~= Seq::<char>::empty());
            assert(lines.deep_view() =~= Seq::<Seq<char>>::empty());
            assert(split_lines(content@.take(0)).drop_last() =~= Seq::<Seq<char>>::empty());
            assert(current@ + held@ =~= Seq::<char>::empty());
        }
        for c in it: content.chars()
            invariant
                it.seq() == content@,
                lines.deep_view() == kept_rows(
                    split_lines(content@.take(it.index() as int)).drop_last(),
                ),
                split_lines(content@.take(it.index() as int)).last() == current@ + held@,
                current@.len() == 0 || current@.last() != '\r',
                forall|i: int| 0 <= i < held@.len() ==> held@[i] == '\r',
        {
            let ghost before = content@.take(it.index() as int);
            let ghost pieces = split_lines(before);
            proof {
                assert(content@.take(it.index() + 1).drop_last() =~= before);
                assert(content@.take(it.index() + 1).last() == c);
                lemma_split_lines_nonempty(before);
            }
            if c == '\n' {
                proof {
                    lemma_trim_returns(current@, held@);
                    assert(pieces.push(Seq::<char>::empty()).drop_last() =~= pieces);
                }
                if !current.as_str().is_empty() {
                    let ghost rows = lines.deep_view();
                    let ghost row = current@;
                    lines.push(current);
                    proof {
                        assert(lines.deep_view() =~= rows.push(row));
                    }
                }
                current = String::new();
                held = String::new();
                proof {
                    assert(current@ + held@ =~= Seq::<char>::empty());
                }
            } else if c == '\r' {
                let ghost old_held = held@;
                push_char(&mut held, c);
                proof {
                    assert(current@ + held@ =~= (current@ + old_held).push(c));
                    assert(pieces.update(pieces.len() - 1, pieces.last().push(c)).drop_last()
                        =~= pieces.drop_last());
                }
            } else {
                let ghost joined = current@ + held@;
                current.append(held.as_str());
                push_char(&mut current, c);
                held = String::new();
                proof {
                    assert(current@ + held@ =~= joined.push(c));
                    assert(pieces.update(pieces.len() - 1, pieces.last().push(c)).drop_last()
                        =~= pieces.drop_last());
                }
            }
        }
        proof {
            assert(content@.take(content@.len() as int) =~= content@);
            lemma_trim_returns(current@, held@);
            lemma_split_lines_nonempty(content@);
            let pieces = split_lines(content@);
            assert(pieces =~= pieces.drop_last().push(pieces.last()));
        }
        if !current.as_str().is_empty() {
            let ghost rows = lines.deep_view();
            let ghost row = current@;
            lines.push(current);
            proof {
                assert(lines.deep_view() =~= rows.push(row));
            }
        }
        lines
    }

    /// The terrain that the given rows encode. Fails when there is no row
    /// or when the rows differ in length.
    pub fn terrain_from_lines(&self, lines: &Vec<String>) -> (loaded: Result<Terrain, String>)
        ensures
            match loaded {
                Ok(terrain) => uniform(lines.deep_view()) && terrain@ == grid_of(
                    lines.deep_view(),
                ),
                Err(message) => !uniform(lines.deep_view()) && message@ == (if lines.len() == 0 {
                    "Empty map data"@
                } else {
                    "Invalid map dimensions - all rows must have same length"@
                }),
            },
    {
        if lines.len() == 0 {
            return Err(String::from_str("Empty map data"));
        }
        if !self.validate_map_dimensions(lines) {
            return Err(
                String::from_str("Invalid map dimensions - all rows must have same length"),
            );
        }
        let ghost rows = lines.deep_view();
        let height = lines.len();
        let width = lines[0].as_str().unicode_len();
        let mut terrain = Terrain::new(width, height);
        proof {
            terrain@.lemma_same_cells(grid_upto(rows, 0, 0));
        }
        let mut y: usize = 0;
        while y < height
            invariant
                y <= height,
                height == lines.len(),
                rows == lines.deep_view(),
                uniform(rows),
                width == rows[0].len(),
                terrain@ == grid_upto(rows, y as int, 0),
            decreases height - y,
        {
            let line = lines[y].as_str();
            let mut x: usize = 0;
            for ch in it: line.chars()
                invariant
                    y < height,
                    height == lines.len(),
                    rows == lines.deep_view(),
                    uniform(rows),
                    width == rows[0].len(),
                    it.seq() == rows[y as int],
                    x == it.index(),
                    terrain@ == grid_upto(rows, y as int, x as int),
            {
                let ghost before = terrain@;
                assert(rows[y as int].len() == width);
                let terrain_type = self.char_to_terrain_type(ch);
                terrain.set_terrain(x, y, terrain_type);
                match terrain_type {
                    TerrainType::Hill => {
                        terrain.set_elevation(x, y, HILL_ELEVATION);
                    },
                    TerrainType::WindZone => {
                        terrain.set_wind_resistance(x, y, WIND_ZONE_RESISTANCE);
                    },
                    _ => {},
                }
                proof {
                    assert(before.contains(x as int, y as int));
                    terrain@.lemma_same_cells(grid_upto(rows, y as int, x + 1));
                }
                x += 1;
            }
            proof {
                grid_upto(rows, y as int, width as int).lemma_same_cells(
                    grid_upto(rows, y + 1, 0),
                );
            }
            y += 1;
        }
        Ok(terrain)
    }

    /// The terrain that `map_data` encodes: one character per cell, rows
    /// separated by newlines. Hills get an elevation of three units and
    /// wind zones a wind resistance of two. Fails when the text holds no
    /// row or when its rows differ in length.
    pub fn load_map_from_string(&self, map_data: &str) -> (loaded: Result<Terrain, String>)
        ensures
            match loaded {
                Ok(terrain) => uniform(map_rows(map_data@)) && terrain@ == grid_of(
                    map_rows(map_data@),
                ),
                Err(message) => !uniform(map_rows(map_data@)) && message@ == (if map_rows(
                    map_data@,
                ).len() == 0 {
                    "Empty map data"@
                } else {
                    "Invalid map dimensions - all rows must have same length"@
                }),
            },
            map_rows(map_data@).len() == 0 <==> blank(map_data@),
    {
        proof {
            lemma_blank_text(map_data@);
        }
        let lines = self.parse_map_lines(map_data);
        self.terrain_from_lines(&lines)
    }

    /// The encoding of the classes of a terrain: one line per row.
    pub fn terrain_to_string(&self, terrain: &Terrain) -> (text: String)
        ensures
            text@ == encoded(terrain@),
    {
        proof {
            use_type_invariant(terrain);
            terrain.lemma_view_wf();
        }
        let mut result = String::new();
        let height = terrain.get_height();
        let width = terrain.get_width();
        let mut y: usize = 0;
        while y < height
            invariant
                y <= height,
                terrain@.wf(),
                height == terrain@.height,
                width == terrain@.width,
                result@ == encoded_upto(terrain@, y as nat),
            decreases height - y,
        {
            let ghost done = result@;
            let mut x: usize = 0;
            while x < width
                invariant
                    x <= width,
                    y < height,
                    terrain@.wf(),
                    height == terrain@.height,
                    width == terrain@.width,
                    result@ == done + encoded_row(terrain@.kinds[y as int]).take(x as int),
                decreases width - x,
            {
                let terrain_type = terrain.get_terrain(x, y);
                push_char(&mut result, self.terrain_type_to_char(terrain_type));
                proof {
                    let row = encoded_row(terrain@.kinds[y as int]);
                    assert(row.take(x + 1) =~= row.take(x as int).push(row[x as int]));
                    assert(result@ =~= done + row.take(x + 1));
                }
                x += 1;
            }
            push_char(&mut result, '\n');
            proof {
                let row = encoded_row(terrain@.kinds[y as int]);
                assert(row.take(width as int) =~= row);
                assert(result@ =~= done + row.push('\n'));
            }
            y += 1;
        }
        result
    }

    /// A small map of eleven by eleven cells with obstacles, two hills and a row of wind zones.
    pub fn create_sample_map(&self) -> (terrain: Terrain)
        ensures
            terrain@ == grid_of(sample_rows()),
    {
        let mut lines: Vec<String> = Vec::new();
        lines.push(String::from_str("..........."));
        lines.push(String::from_str("..O.O.O...."));
        lines.push(String::from_str("..........."));
        lines.push(String::from_str(".O..^..O..."));
        lines.push(String::from_str("..........."));
        lines.push(String::from_str("...W.W.W..."));
        lines.push(String::from_str("..........."));
        lines.push(String::from_str(".O..^..O..."));
        lines.push(String::from_str("..........."));
        lines.push(String::from_str("..O.O.O...."));
        lines.push(String::from_str("..........."));
        proof {
            reveal_strlit("...........");
            reveal_strlit("..O.O.O....");
            reveal_strlit(".O..^..O...");
            reveal_strlit("...W.W.W...");
            assert(lines.deep_view() =~= sample_rows());
        }
        self.terrain_from_lines(&lines).unwrap()
    }

    /// A larger map of twenty-one by thirteen cells with obstacle rows, two hill ranges and two wind fields.
    pub fn create_complex_map(&self) -> (terrain: Terrain)
        ensures
            terrain@ == grid_of(complex_rows()),
    {
        let mut lines: Vec<String> = Vec::new();
        lines.push(String::from_str("..O.......O.......O.."));
        lines.push(String::from_str(".O..^^^^^..O.WWW.O..."));
        lines.push(String::from_str("O....^^^....W.W.W...O"));
        lines.push(String::from_str(".....^.^.....W.W....."));
        lines.push(String::from_str("..O...^...O...W...O.."));
        lines.push(String::from_str("......^.............."));
        lines.push(String::from_str("..OOO.^.OOO.WWW.OOO.."));
        lines.push(String::from_str("......^.............."));
        lines.push(String::from_str("..O...^...O...W...O.."));
        lines.push(String::from_str(".....^.^.....W.W....."));
        lines.push(String::from_str("O....^^^....W.W.W...O"));
        lines.push(String::from_str(".O..^^^^^..O.WWW.O..."));
        lines.push(String::from_str("..O.......O.......O.."));
        proof {
            reveal_strlit("..O.......O.......O..");
            reveal_strlit(".O..^^^^^..O.WWW.O...");
            reveal_strlit("O....^^^....W.W.W...O");
            reveal_strlit(".....^.^.....W.W.....");
            reveal_strlit("..O...^...O...W...O..");
            reveal_strlit("......^..............");
            reveal_strlit("..OOO.^.OOO.WWW.OOO..");
            assert(lines.deep_view() =~= complex_rows());
        }
        self.terrain_from_lines(&lines).unwrap()
    }

    /// Whether there is a line and all lines are as long as the first.
    pub fn validate_map_dimensions(&self, lines: &Vec<String>) -> (valid: bool)
        ensures
            valid == uniform(lines.deep_view()),
    {
        if lines.len() == 0 {
            return false;
        }
        let expected_width = lines[0].as_str().unicode_len();
        let mut y: usize = 0;
        while y < lines.len()
            invariant
                y <= lines.len(),
                lines.len() > 0,
                expected_width == lines.deep_view()[0].len(),
                forall|j: int| 0 <= j < y ==> (#[trigger] lines.deep_view()[j]).len() == expected_width,
            decreases lines.len() - y,
        {
            if lines[y].as_str().unicode_len() != expected_width {
                assert(lines.deep_view()[y as int].len() != lines.deep_view()[0].len());
                return false;
            }
            y += 1;
        }
        true
    }
}

/// The text always splits into at least one piece.
pub proof fn lemma_split_lines_nonempty(text: Seq<char>)
    ensures
        split_lines(text).len() > 0,
    decreases text.len(),
{
    if text.len() > 0 {
        lemma_split_lines_nonempty(text.drop_last());
    }
}

/// A text encodes no row exactly when it holds nothing but line breaks.
pub proof fn lemma_blank_text(text: Seq<char>)
    ensures
        map_rows(text).len() == 0 <==> blank(text),
    decreases text.len(),
{
    if text.len() == 0 {
        let pieces = split_lines(text);
        assert(pieces.drop_last() =~= Seq::<Seq<char>>::empty());
        assert(kept_rows(pieces.drop_last()).len() == 0);
    } else {
        let shorter = text.drop_last();
        let c = text.last();
        lemma_blank_text(shorter);
        lemma_split_lines_nonempty(shorter);
        let before = split_lines(shorter);
        let pieces = split_lines(text);
        assert(blank(text) <==> blank(shorter) && (c == '\n' || c == '\r')) by {
            if blank(text) {
                assert forall|i: int| 0 <= i < shorter.len() implies shorter[i] == '\n'
                    || shorter[i] == '\r' by {
                    assert(shorter[i] == text[i]);
                }
                assert(text[text.len() - 1] == c);
            }
            if blank(shorter) && (c == '\n' || c == '\r') {
                assert forall|i: int| 0 <= i < text.len() implies text[i] == '\n' || text[i]
                    == '\r' by {
                    if i < shorter.len() {
                        assert(shorter[i] == text[i]);
                    }
                }
            }
        }
        if c == '\n' {
            assert(pieces.drop_last() =~= before);
        } else {
            let line = before.last();
            assert(pieces.drop_last() =~= before.drop_last());
            assert(pieces.last() == line.push(c));
            if c == '\r' {
                assert(line.push(c).drop_last() =~= line);
            }
        }
    }
}

/// Appending characters other than newlines extends the last piece.
pub proof fn lemma_split_lines_extend(text: Seq<char>, line: Seq<char>)
    requires
        forall|i: int| 0 <= i < line.len() ==> line[i] != '\n',
    ensures
        split_lines(text + line) == split_lines(text).update(
            split_lines(text).len() - 1,
            split_lines(text).last() + line,
        ),
    decreases line.len(),
{
    lemma_split_lines_nonempty(text);
    let pieces = split_lines(text);
    if line.len() == 0 {
        assert(text + line =~= text);
        assert(pieces.last() + line =~= pieces.last());
        assert(pieces.update(pieces.len() - 1, pieces.last()) =~= pieces);
    } else {
        let shorter = line.drop_last();
        lemma_split_lines_extend(text, shorter);
        assert((text + line).drop_last() =~= text + shorter);
        assert((text + line).last() == line.last());
        assert(line.last() == line[line.len() - 1]);
        assert(pieces.last() + line =~= (pieces.last() + shorter).push(line.last()));
        assert(split_lines(text + line) =~= pieces.update(
            pieces.len() - 1,
            pieces.last() + line,
        ));
    }
}

/// The rows of classes of a grid, each as its characters.
pub open spec fn encoded_rows(grid: Grid, k: nat) -> Seq<Seq<char>> {
    Seq::new(k, |y: int| encoded_row(grid.kinds[y]))
}

/// The encoding of the first `k` rows splits into those rows and an
/// empty piece after the last newline.
pub proof fn lemma_split_encoded(grid: Grid, k: nat)
    requires
        grid.wf(),
        k <= grid.height,
    ensures
        split_lines(encoded_upto(grid, k)) == encoded_rows(grid, k).push(Seq::empty()),
    decreases k,
{
    if k == 0 {
        assert(encoded_rows(grid, 0) =~= Seq::<Seq<char>>::empty());
        assert(split_lines(encoded_upto(grid, 0)) =~= encoded_rows(grid, 0).push(Seq::empty()));
    } else {
        lemma_split_encoded(grid, (k - 1) as nat);
        let before = encoded_upto(grid, (k - 1) as nat);
        let row = encoded_row(grid.kinds[k - 1]);
        lemma_split_lines_extend(before, row);
        let text = encoded_upto(grid, k);
        assert(text =~= (before + row).push('\n'));
        assert(text.drop_last() =~= before + row);
        assert(text.last() == '\n');
        let pieces = split_lines(before);
        assert(pieces.last() + row =~= row);
        assert(split_lines(text) =~= encoded_rows(grid, k).push(Seq::empty()));
    }
}

/// Every encoded row of a grid with at least one column is kept as it
/// is.
pub proof fn lemma_kept_encoded(grid: Grid, k: nat)
    requires
        grid.wf(),
        grid.width > 0,
        k <= grid.height,
    ensures
        kept_rows(encoded_rows(grid, k)) == encoded_rows(grid, k),
    decreases k,
{
    if k == 0 {
        assert(encoded_rows(grid, 0) =~= Seq::<Seq<char>>::empty());
    } else {
        lemma_kept_encoded(grid, (k - 1) as nat);
        let rows = encoded_rows(grid, k);
        assert(rows.drop_last() =~= encoded_rows(grid, (k - 1) as nat));
        let row = rows.last();
        assert(row == encoded_row(grid.kinds[k - 1]));
        assert(row.len() == grid.width);
        assert(row.last() == symbol(grid.kinds[k - 1][grid.width - 1]));
        assert(kept_rows(rows) =~= rows);
    }
}

/// Encoding a grid that has at least one cell and parsing the text again
/// gives a grid of the same dimensions with the same class in every
/// cell.
pub proof fn lemma_round_trip(grid: Grid)
    requires
        grid.wf(),
        grid.width > 0,
        grid.height > 0,
    ensures
        uniform(map_rows(encoded(grid))),
        grid_of(map_rows(encoded(grid))).width == grid.width,
        grid_of(map_rows(encoded(grid))).height == grid.height,
        grid_of(map_rows(encoded(grid))).kinds == grid.kinds,
{
    let rows = encoded_rows(grid, grid.height);
    lemma_split_encoded(grid, grid.height);
    lemma_kept_encoded(grid, grid.height);
    let pieces = rows.push(Seq::empty());
    assert(pieces.drop_last() =~= rows);
    assert(trim_returns(pieces.last()).len() == 0);
    assert(map_rows(encoded(grid)) == rows);
    assert(rows[0].len() == grid.width);
    let parsed = grid_of(rows);
    assert forall|y: int| 0 <= y < grid.height implies #[trigger] parsed.kinds[y]
        == grid.kinds[y] by {
        assert(rows[y].len() == grid.width);
        assert forall|x: int| 0 <= x < grid.width implies parsed.kinds[y][x]
            == grid.kinds[y][x] by {
            assert(rows[y][x] == symbol(grid.kinds[y][x]));
        }
        assert(parsed.kinds[y] =~= grid.kinds[y]);
    }
    assert(parsed.kinds =~= grid.kinds);
}

} // verus!
