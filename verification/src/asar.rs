use crate::read::AsarArchive;
use vstd::prelude::*;

verus! {

/// Where one file's bytes lie within the data section of an archive.
#[derive(Debug, Clone, PartialEq, Eq, Hash, Structural)]
pub struct AsarFile {
    pub offset: u64,
    pub size: u64,
}

/// The bytes that `file` covers within `data`, when the whole range lies inside it.
pub open spec fn spec_file_slice(file: AsarFile, data: Seq<u8>) -> Option<Seq<u8>> {
    if file.offset + file.size <= data.len() {
        Some(data.subrange(file.offset as int, file.offset + file.size))
    } else {
        None
    }
}

impl AsarFile {
    /// The bytes of this file within `archive`, or `None` when its range does not fit
    /// in the archive's data.
    pub fn data<'a>(&self, archive: &AsarArchive<'a>) -> (res: Option<&'a [u8]>)
        ensures
            match spec_file_slice(*self, archive.data_view()) {
                Some(s) => res matches Some(r) && r@ == s,
                None => res is None,
            },
    {
        let data = archive.data();
        let len = data.len();
        if self.offset <= len as u64 && self.size <= len as u64 - self.offset {
            let start = self.offset as usize;
            let end = (self.offset + self.size) as usize;
            Some(vstd::slice::slice_subrange(data, start, end))
        } else {
            None
        }
    }
}

/// The JSON header of an archive: which files it holds, and for which game.
#[derive(Debug, PartialEq)]
pub struct AsarHeader {
    pub files: Vec<(String, AsarFile)>,
    pub game: Game,
    pub filename: String,
    pub original_header_line: Option<String>,
}

impl Default for AsarHeader {
    fn default() -> (res: Self)
        ensures
            res.files@.len() == 0,
            res.game == Game::Eu4,
            res.filename@.len() == 0,
            res.original_header_line is None,
    {
        AsarHeader {
            files: Vec::new(),
            game: Game::Eu4,
            filename: String::new(),
            original_header_line: None,
        }
    }
}

/// Which game a save file belongs to.
#[derive(Debug, Clone, Copy, PartialEq, Eq, Structural)]
pub enum Game {
    Eu4,
    Vic3,
    Hoi4,
    Imperator,
    Ck3,
}

impl Default for Game {
    fn default() -> (res: Self)
        ensures
            res == Game::Eu4,
    {
        Game::Eu4
    }
}

/// Whether saves of `game` put a text line in front of their zip.
pub open spec fn spec_has_header_line(game: Game) -> bool {
    game is Vic3 || game is Imperator || game is Ck3
}

/// The names of the zip entries that go into an archive, in archive order.
pub open spec fn spec_zip_order(game: Game) -> Seq<Seq<char>> {
    match game {
        Game::Eu4 => seq!["meta"@, "gamestate"@, "ai"@],
        Game::Ck3 | Game::Vic3 | Game::Imperator => seq!["gamestate"@],
        Game::Hoi4 => seq![],
    }
}

/// The bytes that every zip entry but the first starts with, for `game`.
pub open spec fn spec_zip_file_header(game: Game) -> Seq<u8> {
    match game {
        Game::Eu4 => seq![69u8, 85u8, 52u8, 116u8, 120u8, 116u8],
        _ => seq![],
    }
}

impl Game {
    pub fn has_header_line(&self) -> (res: bool)
        ensures
            res == spec_has_header_line(*self),
    {
        match self {
            Game::Vic3 | Game::Imperator | Game::Ck3 => true,
            _ => false,
        }
    }

    pub fn zip_order(&self) -> (res: &'static [&'static str])
        ensures
            res@.map_values(|s: &str| s@) == spec_zip_order(*self),
    {
        match self {
            Game::Eu4 => &["meta", "gamestate", "ai"],
            Game::Ck3 | Game::Vic3 | Game::Imperator => &["gamestate"],
            Game::Hoi4 => &[],
        }
    }

    pub fn zip_file_header(&self) -> (res: &'static [u8])
        ensures
            res@ == spec_zip_file_header(*self),
    {
        match self {
            Game::Eu4 => &[69, 85, 52, 116, 120, 116],
            _ => &[],
        }
    }
}

/// What the caller tells the writer about a save.
pub struct Metadata<'a> {
    pub filename: &'a str,
}

} // verus!
