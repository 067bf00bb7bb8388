//! The command line.

use crate::text::{
    i32_text, is_digit, is_digits, lower_ascii, lowercase, lowered_text, parse_i32, parse_u32,
    text_is, u32_text,
};
use crate::world::text_views;
use vstd::prelude::*;
use vstd::utf8::is_ascii_chars;

verus! {

/// What a command asks for.
pub enum CommandView {
    QueryBlock { world_path: Seq<char>, x: i32, y: i32, z: i32, dim_id: u8 },
    ShowInfo { world_path: Seq<char> },
    ListPlayers { world_path: Seq<char> },
    ListActors { world_path: Seq<char> },
    ShowPlayer { world_path: Seq<char>, player_key: Seq<char>, dump: bool, json: bool },
    WipeActors { world_path: Seq<char>, include_players: bool },
    ExportActors { world_path: Seq<char>, output_file: Seq<char>, no_players: bool },
    ExportChunks {
        world_path: Seq<char>,
        output_file: Seq<char>,
        bx1: i32,
        bz1: i32,
        bx2: i32,
        bz2: i32,
        dimension: Option<u8>,
    },
    ImportActors { world_path: Seq<char>, input_file: Seq<char>, skip_existing: bool },
    ImportChunks {
        world_path: Seq<char>,
        input_file: Seq<char>,
        skip_existing: bool,
        target: Option<(i32, i32)>,
        dimension: Option<u8>,
        dry_run: bool,
    },
    EntityDensity { world_path: Seq<char>, group_size: u32 },
    DeleteChunks { world_path: Seq<char>, bx1: i32, bz1: i32, bx2: i32, bz2: i32, dim_id: u8 },
    BatchDeleteChunks { world_path: Seq<char>, input_file: Seq<char>, invert: bool },
}

/// What a command asks for.
pub enum Command {
    QueryBlock { world_path: String, x: i32, y: i32, z: i32, dim_id: u8 },
    ShowInfo { world_path: String },
    ListPlayers { world_path: String },
    ListActors { world_path: String },
    ShowPlayer { world_path: String, player_key: String, dump: bool, json: bool },
    WipeActors { world_path: String, include_players: bool },
    ExportActors { world_path: String, output_file: String, no_players: bool },
    ExportChunks {
        world_path: String,
        output_file: String,
        bx1: i32,
        bz1: i32,
        bx2: i32,
        bz2: i32,
        dimension: Option<u8>,
    },
    ImportActors { world_path: String, input_file: String, skip_existing: bool },
    ImportChunks {
        world_path: String,
        input_file: String,
        skip_existing: bool,
        target: Option<(i32, i32)>,
        dimension: Option<u8>,
        dry_run: bool,
    },
    EntityDensity { world_path: String, group_size: u32 },
    DeleteChunks { world_path: String, bx1: i32, bz1: i32, bx2: i32, bz2: i32, dim_id: u8 },
    BatchDeleteChunks { world_path: String, input_file: String, invert: bool },
}

impl View for Command {
    type V = CommandView;

    open spec fn view(&self) -> CommandView {
        match *self {
            Command::QueryBlock { world_path, x, y, z, dim_id } => CommandView::QueryBlock {
                world_path: world_path@,
                x,
                y,
                z,
                dim_id,
            },
            Command::ShowInfo { world_path } => CommandView::ShowInfo { world_path: world_path@ },
            Command::ListPlayers { world_path } => CommandView::ListPlayers {
                world_path: world_path@,
            },
            Command::ListActors { world_path } => CommandView::ListActors {
                world_path: world_path@,
            },
            Command::ShowPlayer { world_path, player_key, dump, json } => CommandView::ShowPlayer {
                world_path: world_path@,
                player_key: player_key@,
                dump,
                json,
            },
            Command::WipeActors { world_path, include_players } => CommandView::WipeActors {
                world_path: world_path@,
                include_players,
            },
            Command::ExportActors { world_path, output_file, no_players } => CommandView::ExportActors {
                world_path: world_path@,
                output_file: output_file@,
                no_players,
            },
            Command::ExportChunks { world_path, output_file, bx1, bz1, bx2, bz2, dimension } => CommandView::ExportChunks {
                world_path: world_path@,
                output_file: output_file@,
                bx1,
                bz1,
                bx2,
                bz2,
                dimension,
            },
            Command::ImportActors { world_path, input_file, skip_existing } => CommandView::ImportActors {
                world_path: world_path@,
                input_file: input_file@,
                skip_existing,
            },
            Command::ImportChunks { world_path, input_file, skip_existing, target, dimension, dry_run } => CommandView::ImportChunks {
                world_path: world_path@,
                input_file: input_file@,
                skip_existing,
                target,
                dimension,
                dry_run,
            },
            Command::EntityDensity { world_path, group_size } => CommandView::EntityDensity {
                world_path: world_path@,
                group_size,
            },
            Command::DeleteChunks { world_path, bx1, bz1, bx2, bz2, dim_id } => CommandView::DeleteChunks {
                world_path: world_path@,
                bx1,
                bz1,
                bx2,
                bz2,
                dim_id,
            },
            Command::BatchDeleteChunks { world_path, input_file, invert } => CommandView::BatchDeleteChunks {
                world_path: world_path@,
                input_file: input_file@,
                invert,
            },
        }
    }
}

/// What is said of a command line that cannot be understood.
pub enum ArgErrorView {
    Number(Seq<char>, Seq<char>),
    ChunkCoordinates,
    GroupSizeFormat(Seq<char>),
    GroupSizeRange,
    Dimension(Seq<char>),
    MissingCoordinates,
    MissingTarget,
    MissingDimension,
}

/// Why a command line cannot be understood.
pub enum ArgError {
    /// The coordinate of a name is not an integer, but a text.
    Number(String, String),
    /// Chunks to export need two or four coordinates.
    ChunkCoordinates,
    /// The size of a group of chunks is not a number.
    GroupSizeFormat(String),
    /// The size of a group of chunks is out of range.
    GroupSizeRange,
    /// A text names no dimension.
    Dimension(String),
    /// A block needs three coordinates.
    MissingCoordinates,
    /// A target needs two coordinates.
    MissingTarget,
    /// The name of a dimension is missing.
    MissingDimension,
}

impl View for ArgError {
    type V = ArgErrorView;

    open spec fn view(&self) -> ArgErrorView {
        match *self {
            ArgError::Number(n, s) => ArgErrorView::Number(n@, s@),
            ArgError::ChunkCoordinates => ArgErrorView::ChunkCoordinates,
            ArgError::GroupSizeFormat(s) => ArgErrorView::GroupSizeFormat(s@),
            ArgError::GroupSizeRange => ArgErrorView::GroupSizeRange,
            ArgError::Dimension(s) => ArgErrorView::Dimension(s@),
            ArgError::MissingCoordinates => ArgErrorView::MissingCoordinates,
            ArgError::MissingTarget => ArgErrorView::MissingTarget,
            ArgError::MissingDimension => ArgErrorView::MissingDimension,
        }
    }
}

/// The answer to a command line.
pub enum AnswerView {
    Help(i32),
    Run(CommandView),
    Refuse(ArgErrorView),
}

/// The answer to a command line.
pub enum Answer {
    /// Show the help, and end with a status.
    Help(i32),
    /// Run a command.
    Run(Command),
    /// Refuse it, for a reason.
    Refuse(ArgError),
}

impl View for Answer {
    type V = AnswerView;

    open spec fn view(&self) -> AnswerView {
        match *self {
            Answer::Help(code) => AnswerView::Help(code),
            Answer::Run(c) => AnswerView::Run(c@),
            Answer::Refuse(e) => AnswerView::Refuse(e@),
        }
    }
}

/// Whether an option is given among the arguments from a place on.
pub open spec fn has_option(args: Seq<Seq<char>>, from: int, name: Seq<char>) -> bool {
    exists|i: int| from <= i < args.len() && #[trigger] args[i] == name
}

/// The number of a dimension by its name in lower case, or by its number.
pub open spec fn dim_argument(name: Seq<char>) -> Option<u8> {
    if name == "overworld"@ || name == "0"@ {
        Some(0)
    } else if name == "nether"@ || name == "1"@ {
        Some(1)
    } else if name == "end"@ || name == "2"@ {
        Some(2)
    } else {
        None
    }
}

/// The dimension of an argument.
pub open spec fn dim_at(args: Seq<Seq<char>>, i: int) -> Result<u8, ArgErrorView> {
    match dim_argument(lowered_text(args[i])) {
        Some(d) => Ok(d),
        None => Err(ArgErrorView::Dimension(args[i])),
    }
}

/// The dimension of an argument that may be left out. The overworld is then meant.
pub open spec fn dim_or_overworld(args: Seq<Seq<char>>, i: int) -> Result<u8, ArgErrorView> {
    if i < args.len() {
        dim_at(args, i)
    } else {
        Ok(0)
    }
}

/// The coordinate of a name that an argument gives.
pub open spec fn number_at(args: Seq<Seq<char>>, i: int, name: Seq<char>) -> Result<
    i32,
    ArgErrorView,
> {
    match i32_text(args[i]) {
        Some(v) => Ok(v),
        None => Err(ArgErrorView::Number(name, args[i])),
    }
}

/// The first of four coordinates that is wrong, or all of them.
pub open spec fn four_numbers(args: Seq<Seq<char>>, i: int) -> Result<
    (i32, i32, i32, i32),
    ArgErrorView,
> {
    match number_at(args, i, "bx1"@) {
        Err(e) => Err(e),
        Ok(a) => match number_at(args, i + 1, "bz1"@) {
            Err(e) => Err(e),
            Ok(b) => match number_at(args, i + 2, "bx2"@) {
                Err(e) => Err(e),
                Ok(c) => match number_at(args, i + 3, "bz2"@) {
                    Err(e) => Err(e),
                    Ok(d) => Ok((a, b, c, d)),
                },
            },
        },
    }
}

/// The first of two coordinates that is wrong, or both of them.
pub open spec fn two_numbers(args: Seq<Seq<char>>, i: int) -> Result<(i32, i32), ArgErrorView> {
    match number_at(args, i, "bx"@) {
        Err(e) => Err(e),
        Ok(a) => match number_at(args, i + 1, "bz"@) {
            Err(e) => Err(e),
            Ok(b) => Ok((a, b)),
        },
    }
}

/// A dimension that may be left out, at a place that is the last one then.
pub open spec fn dim_if_last(args: Seq<Seq<char>>, i: int) -> Result<Option<u8>, ArgErrorView> {
    if i < args.len() {
        match dim_at(args, i) {
            Ok(d) => Ok(Some(d)),
            Err(e) => Err(e),
        }
    } else {
        Ok(None)
    }
}

/// What the export of chunks is asked for: one chunk or two corners, and a dimension that may be
/// left out.
pub open spec fn export_chunks_answer(args: Seq<Seq<char>>) -> AnswerView {
    let extra = args.len() - 4;
    let corners = if extra == 2 || extra == 3 {
        match two_numbers(args, 4) {
            Ok((x, z)) => Ok((x, z, x, z)),
            Err(e) => Err(e),
        }
    } else if extra == 4 || extra == 5 {
        four_numbers(args, 4)
    } else {
        Err(ArgErrorView::ChunkCoordinates)
    };
    match corners {
        Err(e) => AnswerView::Refuse(e),
        Ok((bx1, bz1, bx2, bz2)) => match dim_if_last(
            args,
            if extra <= 3 {
                6
            } else {
                8
            },
        ) {
            Err(e) => AnswerView::Refuse(e),
            Ok(dimension) => AnswerView::Run(
                CommandView::ExportChunks {
                    world_path: args[1],
                    output_file: args[3],
                    bx1,
                    bz1,
                    bx2,
                    bz2,
                    dimension,
                },
            ),
        },
    }
}

/// The first place from another on at which an option stands.
pub open spec fn option_place(args: Seq<Seq<char>>, from: int, name: Seq<char>) -> Option<int>
    decreases args.len() - from,
{
    if from < 0 || from >= args.len() {
        None
    } else if args[from] == name {
        Some(from)
    } else {
        option_place(args, from + 1, name)
    }
}

/// The target of an import, where one is given.
pub open spec fn target_option(args: Seq<Seq<char>>) -> Result<Option<(i32, i32)>, ArgErrorView> {
    match option_place(args, 4, "--to"@) {
        None => Ok(None),
        Some(i) => if i + 2 >= args.len() {
            Err(ArgErrorView::MissingTarget)
        } else {
            match two_numbers(args, i + 1) {
                Ok(p) => Ok(Some(p)),
                Err(e) => Err(e),
            }
        },
    }
}

/// The dimension of an import, where one is given.
pub open spec fn dimension_option(args: Seq<Seq<char>>) -> Result<Option<u8>, ArgErrorView> {
    match option_place(args, 4, "--dimension"@) {
        None => Ok(None),
        Some(i) => if i + 1 >= args.len() {
            Err(ArgErrorView::MissingDimension)
        } else {
            match dim_at(args, i + 1) {
                Ok(d) => Ok(Some(d)),
                Err(e) => Err(e),
            }
        },
    }
}

/// What the import of chunks is asked for. Without a target, words about a dimension or a
/// rehearsal mean nothing, as any other word does.
pub open spec fn import_chunks_answer(args: Seq<Seq<char>>) -> AnswerView {
    match target_option(args) {
        Err(e) => AnswerView::Refuse(e),
        Ok(None) => AnswerView::Run(
            CommandView::ImportChunks {
                world_path: args[1],
                input_file: args[3],
                skip_existing: has_option(args, 4, "--skip-existing"@),
                target: None,
                dimension: None,
                dry_run: false,
            },
        ),
        Ok(Some(to)) => match dimension_option(args) {
            Err(e) => AnswerView::Refuse(e),
            Ok(dimension) => AnswerView::Run(
                CommandView::ImportChunks {
                    world_path: args[1],
                    input_file: args[3],
                    skip_existing: has_option(args, 4, "--skip-existing"@),
                    target: Some(to),
                    dimension,
                    dry_run: has_option(args, 4, "--dry-run"@),
                },
            ),
        },
    }
}

/// What the density of entities is asked for: by single chunks, or by groups of a size from 1 to
/// 256.
pub open spec fn density_answer(args: Seq<Seq<char>>) -> AnswerView {
    let size = if args.len() >= 4 {
        u32_text(args[3])
    } else {
        Some(1u32)
    };
    match size {
        None => AnswerView::Refuse(ArgErrorView::GroupSizeFormat(args[3])),
        Some(n) => if n == 0 || n > 256 {
            AnswerView::Refuse(ArgErrorView::GroupSizeRange)
        } else {
            AnswerView::Run(CommandView::EntityDensity { world_path: args[1], group_size: n })
        },
    }
}

/// What the deletion of chunks is asked for.
pub open spec fn delete_chunks_answer(args: Seq<Seq<char>>) -> AnswerView {
    match four_numbers(args, 3) {
        Err(e) => AnswerView::Refuse(e),
        Ok((bx1, bz1, bx2, bz2)) => match dim_or_overworld(args, 7) {
            Err(e) => AnswerView::Refuse(e),
            Ok(dim_id) => AnswerView::Run(
                CommandView::DeleteChunks { world_path: args[1], bx1, bz1, bx2, bz2, dim_id },
            ),
        },
    }
}

/// What a block is asked for by its coordinates.
pub open spec fn query_answer(args: Seq<Seq<char>>) -> AnswerView {
    match number_at(args, 2, "x"@) {
        Err(e) => AnswerView::Refuse(e),
        Ok(x) => match number_at(args, 3, "y"@) {
            Err(e) => AnswerView::Refuse(e),
            Ok(y) => match number_at(args, 4, "z"@) {
                Err(e) => AnswerView::Refuse(e),
                Ok(z) => match dim_or_overworld(args, 5) {
                    Err(e) => AnswerView::Refuse(e),
                    Ok(dim_id) => AnswerView::Run(
                        CommandView::QueryBlock { world_path: args[1], x, y, z, dim_id },
                    ),
                },
            },
        },
    }
}

/// The answer to a command line, the name of the program first. What follows the world tells the
/// command; without anything else it is a summary, and otherwise the coordinates of a block.
pub open spec fn answer(args: Seq<Seq<char>>) -> AnswerView {
    let n = args.len();
    if n < 2 {
        AnswerView::Help(1)
    } else if n == 2 {
        if args[1] == "--help"@ {
            AnswerView::Help(0)
        } else {
            AnswerView::Run(CommandView::ShowInfo { world_path: args[1] })
        }
    } else {
        let world_path = args[1];
        let word = args[2];
        if word == "--players"@ || word == "-l"@ {
            AnswerView::Run(CommandView::ListPlayers { world_path })
        } else if word == "--actors"@ || word == "-a"@ {
            AnswerView::Run(CommandView::ListActors { world_path })
        } else if n >= 4 && (word == "--player"@ || word == "-p"@) {
            AnswerView::Run(
                CommandView::ShowPlayer {
                    world_path,
                    player_key: args[3],
                    dump: has_option(args, 4, "--dump"@) || has_option(args, 4, "-d"@),
                    json: has_option(args, 4, "--json"@) || has_option(args, 4, "-j"@),
                },
            )
        } else if word == "--wipe-actors"@ {
            AnswerView::Run(
                CommandView::WipeActors {
                    world_path,
                    include_players: has_option(args, 3, "--include-players"@),
                },
            )
        } else if n >= 4 && word == "--export-actors"@ {
            AnswerView::Run(
                CommandView::ExportActors {
                    world_path,
                    output_file: args[3],
                    no_players: has_option(args, 4, "--no-players"@),
                },
            )
        } else if n >= 4 && word == "--import-actors"@ {
            AnswerView::Run(
                CommandView::ImportActors {
                    world_path,
                    input_file: args[3],
                    skip_existing: has_option(args, 4, "--skip-existing"@),
                },
            )
        } else if n >= 4 && word == "--export-chunks"@ {
            export_chunks_answer(args)
        } else if n >= 4 && word == "--import-chunks"@ {
            import_chunks_answer(args)
        } else if word == "--entity-density"@ {
            density_answer(args)
        } else if n >= 7 && word == "--delete-chunks"@ {
            delete_chunks_answer(args)
        } else if n >= 4 && word == "--batch-delete-chunks"@ {
            AnswerView::Run(
                CommandView::BatchDeleteChunks {
                    world_path,
                    input_file: args[3],
                    invert: has_option(args, 4, "--invert"@),
                },
            )
        } else if n < 5 {
            AnswerView::Refuse(ArgErrorView::MissingCoordinates)
        } else {
            query_answer(args)
        }
    }
}

fn given(args: &Vec<String>, from: usize, name: &str) -> (r: bool)
    ensures
        r == has_option(text_views(args@), from as int, name@),
{
    let ghost views = text_views(args@);
    let mut i: usize = from;
    while i < args.len()
        invariant
            from <= i,
            views == text_views(args@),
            forall|k: int| from <= k < i && k < views.len() ==> #[trigger] views[k] != name@,
        decreases args@.len() - i,
    {
        assert(views[i as int] == args@[i as int]@);
        if text_is(args[i].as_str(), name) {
            return true;
        }
        i += 1;
    }
    false
}

/// The number of a dimension by its name in lower case, or by its number.
pub fn dimension_argument(name: &str) -> (r: Option<u8>)
    ensures
        r == dim_argument(name@),
{
    if text_is(name, "overworld") || text_is(name, "0") {
        Some(0)
    } else if text_is(name, "nether") || text_is(name, "1") {
        Some(1)
    } else if text_is(name, "end") || text_is(name, "2") {
        Some(2)
    } else {
        None
    }
}

fn read_dim(args: &Vec<String>, i: usize) -> (r: Result<u8, ArgError>)
    requires
        i < args@.len(),
    ensures
        match r {
            Ok(d) => dim_at(text_views(args@), i as int) == Ok::<u8, ArgErrorView>(d),
            Err(e) => dim_at(text_views(args@), i as int) == Err::<u8, ArgErrorView>(e@),
        },
{
    let lowered = lowercase(args[i].as_str());
    match dimension_argument(lowered.as_str()) {
        Some(d) => Ok(d),
        None => Err(ArgError::Dimension(args[i].clone())),
    }
}

fn read_dim_or_overworld(args: &Vec<String>, i: usize) -> (r: Result<u8, ArgError>)
    ensures
        match r {
            Ok(d) => dim_or_overworld(text_views(args@), i as int) == Ok::<u8, ArgErrorView>(d),
            Err(e) => dim_or_overworld(text_views(args@), i as int) == Err::<u8, ArgErrorView>(e@),
        },
{
    if i < args.len() {
        read_dim(args, i)
    } else {
        Ok(0)
    }
}

fn read_dim_if_last(args: &Vec<String>, i: usize) -> (r: Result<Option<u8>, ArgError>)
    ensures
        match r {
            Ok(d) => dim_if_last(text_views(args@), i as int) == Ok::<Option<u8>, ArgErrorView>(d),
            Err(e) => dim_if_last(text_views(args@), i as int) == Err::<Option<u8>, ArgErrorView>(
                e@,
            ),
        },
{
    if i < args.len() {
        match read_dim(args, i) {
            Ok(d) => Ok(Some(d)),
            Err(e) => Err(e),
        }
    } else {
        Ok(None)
    }
}

fn read_number(args: &Vec<String>, i: usize, name: &str) -> (r: Result<i32, ArgError>)
    requires
        i < args@.len(),
    ensures
        match r {
            Ok(v) => number_at(text_views(args@), i as int, name@) == Ok::<i32, ArgErrorView>(v),
            Err(e) => number_at(text_views(args@), i as int, name@) == Err::<i32, ArgErrorView>(
                e@,
            ),
        },
{
    match parse_i32(args[i].as_str()) {
        Some(v) => Ok(v),
        None => Err(ArgError::Number(name.to_owned(), args[i].clone())),
    }
}

fn read_two(args: &Vec<String>, i: usize) -> (r: Result<(i32, i32), ArgError>)
    requires
        i + 2 <= args.len(),
    ensures
        match r {
            Ok(p) => two_numbers(text_views(args@), i as int) == Ok::<(i32, i32), ArgErrorView>(p),
            Err(e) => two_numbers(text_views(args@), i as int) == Err::<(i32, i32), ArgErrorView>(
                e@,
            ),
        },
{
    let a: i32 = match read_number(args, i, "bx") {
        Ok(v) => v,
        Err(e) => {
            return Err(e);
        },
    };
    match read_number(args, i + 1, "bz") {
        Ok(b) => Ok((a, b)),
        Err(e) => Err(e),
    }
}

fn read_four(args: &Vec<String>, i: usize) -> (r: Result<(i32, i32, i32, i32), ArgError>)
    requires
        i + 4 <= args.len(),
    ensures
        match r {
            Ok(p) => four_numbers(text_views(args@), i as int) == Ok::<
                (i32, i32, i32, i32),
                ArgErrorView,
            >(p),
            Err(e) => four_numbers(text_views(args@), i as int) == Err::<
                (i32, i32, i32, i32),
                ArgErrorView,
            >(e@),
        },
{
    let a: i32 = match read_number(args, i, "bx1") {
        Ok(v) => v,
        Err(e) => {
            return Err(e);
        },
    };
    let b: i32 = match read_number(args, i + 1, "bz1") {
        Ok(v) => v,
        Err(e) => {
            return Err(e);
        },
    };
    let c: i32 = match read_number(args, i + 2, "bx2") {
        Ok(v) => v,
        Err(e) => {
            return Err(e);
        },
    };
    match read_number(args, i + 3, "bz2") {
        Ok(d) => Ok((a, b, c, d)),
        Err(e) => Err(e),
    }
}

fn parse_export_chunks(args: &Vec<String>) -> (r: Answer)
    requires
        args@.len() >= 4,
    ensures
        r@ == export_chunks_answer(text_views(args@)),
{
    let extra: usize = args.len() - 4;
    let (bx1, bz1, bx2, bz2) = if extra == 2 || extra == 3 {
        match read_two(args, 4) {
            Ok((x, z)) => (x, z, x, z),
            Err(e) => {
                return Answer::Refuse(e);
            },
        }
    } else if extra == 4 || extra == 5 {
        match read_four(args, 4) {
            Ok(p) => p,
            Err(e) => {
                return Answer::Refuse(e);
            },
        }
    } else {
        return Answer::Refuse(ArgError::ChunkCoordinates);
    };
    let place: usize = if extra <= 3 {
        6
    } else {
        8
    };
    match read_dim_if_last(args, place) {
        Ok(dimension) => Answer::Run(
            Command::ExportChunks {
                world_path: args[1].clone(),
                output_file: args[3].clone(),
                bx1,
                bz1,
                bx2,
                bz2,
                dimension,
            },
        ),
        Err(e) => Answer::Refuse(e),
    }
}

fn find_option(args: &Vec<String>, from: usize, name: &str) -> (r: Option<usize>)
    ensures
        match r {
            Some(i) => i < args@.len() && option_place(text_views(args@), from as int, name@)
                == Some(i as int),
            None => option_place(text_views(args@), from as int, name@) is None,
        },
{
    let ghost views = text_views(args@);
    let mut i: usize = from;
    while i < args.len()
        invariant
            views == text_views(args@),
            option_place(views, from as int, name@) == option_place(views, i as int, name@),
        decreases args@.len() - i,
    {
        assert(views[i as int] == args@[i as int]@);
        if text_is(args[i].as_str(), name) {
            return Some(i);
        }
        i += 1;
    }
    None
}

fn read_target(args: &Vec<String>) -> (r: Result<Option<(i32, i32)>, ArgError>)
    ensures
        match r {
            Ok(t) => target_option(text_views(args@)) == Ok::<Option<(i32, i32)>, ArgErrorView>(t),
            Err(e) => target_option(text_views(args@)) == Err::<Option<(i32, i32)>, ArgErrorView>(
                e@,
            ),
        },
{
    match find_option(args, 4, "--to") {
        None => Ok(None),
        Some(i) => {
            if args.len() - i <= 2 {
                return Err(ArgError::MissingTarget);
            }
            match read_two(args, i + 1) {
                Ok(p) => Ok(Some(p)),
                Err(e) => Err(e),
            }
        },
    }
}

fn read_dimension_option(args: &Vec<String>) -> (r: Result<Option<u8>, ArgError>)
    ensures
        match r {
            Ok(d) => dimension_option(text_views(args@)) == Ok::<Option<u8>, ArgErrorView>(d),
            Err(e) => dimension_option(text_views(args@)) == Err::<Option<u8>, ArgErrorView>(e@),
        },
{
    match find_option(args, 4, "--dimension") {
        None => Ok(None),
        Some(i) => {
            if args.len() - i <= 1 {
                return Err(ArgError::MissingDimension);
            }
            match read_dim(args, i + 1) {
                Ok(d) => Ok(Some(d)),
                Err(e) => Err(e),
            }
        },
    }
}

fn parse_import_chunks(args: &Vec<String>) -> (r: Answer)
    requires
        args@.len() >= 4,
    ensures
        r@ == import_chunks_answer(text_views(args@)),
{
    let to = match read_target(args) {
        Ok(Some(to)) => to,
        Ok(None) => {
            return Answer::Run(
                Command::ImportChunks {
                    world_path: args[1].clone(),
                    input_file: args[3].clone(),
                    skip_existing: given(args, 4, "--skip-existing"),
                    target: None,
                    dimension: None,
                    dry_run: false,
                },
            );
        },
        Err(e) => {
            return Answer::Refuse(e);
        },
    };
    let dimension = match read_dimension_option(args) {
        Ok(d) => d,
        Err(e) => {
            return Answer::Refuse(e);
        },
    };
    Answer::Run(
        Command::ImportChunks {
            world_path: args[1].clone(),
            input_file: args[3].clone(),
            skip_existing: given(args, 4, "--skip-existing"),
            target: Some(to),
            dimension,
            dry_run: given(args, 4, "--dry-run"),
        },
    )
}

fn parse_density(args: &Vec<String>) -> (r: Answer)
    requires
        args@.len() >= 3,
    ensures
        r@ == density_answer(text_views(args@)),
{
    let group_size: u32 = if args.len() >= 4 {
        match parse_u32(args[3].as_str()) {
            Some(n) => n,
            None => {
                return Answer::Refuse(ArgError::GroupSizeFormat(args[3].clone()));
            },
        }
    } else {
        1
    };
    if group_size == 0 || group_size > 256 {
        return Answer::Refuse(ArgError::GroupSizeRange);
    }
    Answer::Run(Command::EntityDensity { world_path: args[1].clone(), group_size })
}

fn parse_delete_chunks(args: &Vec<String>) -> (r: Answer)
    requires
        args@.len() >= 7,
    ensures
        r@ == delete_chunks_answer(text_views(args@)),
{
    let (bx1, bz1, bx2, bz2) = match read_four(args, 3) {
        Ok(p) => p,
        Err(e) => {
            return Answer::Refuse(e);
        },
    };
    match read_dim_or_overworld(args, 7) {
        Ok(dim_id) => Answer::Run(
            Command::DeleteChunks { world_path: args[1].clone(), bx1, bz1, bx2, bz2, dim_id },
        ),
        Err(e) => Answer::Refuse(e),
    }
}

fn parse_query(args: &Vec<String>) -> (r: Answer)
    requires
        args@.len() >= 5,
    ensures
        r@ == query_answer(text_views(args@)),
{
    let x: i32 = match read_number(args, 2, "x") {
        Ok(v) => v,
        Err(e) => {
            return Answer::Refuse(e);
        },
    };
    let y: i32 = match read_number(args, 3, "y") {
        Ok(v) => v,
        Err(e) => {
            return Answer::Refuse(e);
        },
    };
    let z: i32 = match read_number(args, 4, "z") {
        Ok(v) => v,
        Err(e) => {
            return Answer::Refuse(e);
        },
    };
    match read_dim_or_overworld(args, 5) {
        Ok(dim_id) => Answer::Run(
            Command::QueryBlock { world_path: args[1].clone(), x, y, z, dim_id },
        ),
        Err(e) => Answer::Refuse(e),
    }
}

/// The answer to a command line, the name of the program first.
pub fn parse_args(args: &Vec<String>) -> (r: Answer)
    ensures
        r@ == answer(text_views(args@)),
{
    let ghost views = text_views(args@);
    let n: usize = args.len();
    assert(views.len() == n);
    if n < 2 {
        return Answer::Help(1);
    }
    if n == 2 {
        if text_is(args[1].as_str(), "--help") {
            return Answer::Help(0);
        }
        return Answer::Run(Command::ShowInfo { world_path: args[1].clone() });
    }
    let world_path = args[1].clone();
    let word = args[2].as_str();
    assert(views[2] == word@);
    if text_is(word, "--players") || text_is(word, "-l") {
        Answer::Run(Command::ListPlayers { world_path })
    } else if text_is(word, "--actors") || text_is(word, "-a") {
        Answer::Run(Command::ListActors { world_path })
    } else if n >= 4 && (text_is(word, "--player") || text_is(word, "-p")) {
        Answer::Run(
            Command::ShowPlayer {
                world_path,
                player_key: args[3].clone(),
                dump: given(args, 4, "--dump") || given(args, 4, "-d"),
                json: given(args, 4, "--json") || given(args, 4, "-j"),
            },
        )
    } else if text_is(word, "--wipe-actors") {
        Answer::Run(
            Command::WipeActors {
                world_path,
                include_players: given(args, 3, "--include-players"),
            },
        )
    } else if n >= 4 && text_is(word, "--export-actors") {
        Answer::Run(
            Command::ExportActors {
                world_path,
                output_file: args[3].clone(),
                no_players: given(args, 4, "--no-players"),
            },
        )
    } else if n >= 4 && text_is(word, "--import-actors") {
        Answer::Run(
            Command::ImportActors {
                world_path,
                input_file: args[3].clone(),
                skip_existing: given(args, 4, "--skip-existing"),
            },
        )
    } else if n >= 4 && text_is(word, "--export-chunks") {
        parse_export_chunks(args)
    } else if n >= 4 && text_is(word, "--import-chunks") {
        parse_import_chunks(args)
    } else if text_is(word, "--entity-density") {
        parse_density(args)
    } else if n >= 7 && text_is(word, "--delete-chunks") {
        parse_delete_chunks(args)
    } else if n >= 4 && text_is(word, "--batch-delete-chunks") {
        Answer::Run(
            Command::BatchDeleteChunks {
                world_path,
                input_file: args[3].clone(),
                invert: given(args, 4, "--invert"),
            },
        )
    } else if n < 5 {
        Answer::Refuse(ArgError::MissingCoordinates)
    } else {
        parse_query(args)
    }
}

/// A group size that is let through is from 1 to 256.
pub proof fn law_group_size(args: Seq<Seq<char>>)
    ensures
        answer(args) matches AnswerView::Run(
            CommandView::EntityDensity { world_path, group_size },
        ) ==> 1 <= group_size <= 256,
{
}

/// What tells the words of the command line apart.
proof fn lemma_words()
    ensures
        "--help"@.len() == 6,
        "--help"@[1] == '-',
        "--players"@.len() == 9,
        "--players"@[1] == '-',
        "-l"@.len() == 2,
        "-l"@[1] == 'l',
        "--actors"@.len() == 8,
        "--actors"@[1] == '-',
        "--actors"@[2] == 'a',
        "-a"@.len() == 2,
        "-a"@[1] == 'a',
        "--player"@.len() == 8,
        "--player"@[1] == '-',
        "--player"@[2] == 'p',
        "-p"@.len() == 2,
        "-p"@[1] == 'p',
        "--wipe-actors"@.len() == 13,
        "--wipe-actors"@[1] == '-',
        "--export-actors"@.len() == 15,
        "--export-actors"@[1] == '-',
        "--export-actors"@[2] == 'e',
        "--export-actors"@[9] == 'a',
        "--import-actors"@.len() == 15,
        "--import-actors"@[1] == '-',
        "--import-actors"@[2] == 'i',
        "--import-actors"@[9] == 'a',
        "--export-chunks"@.len() == 15,
        "--export-chunks"@[1] == '-',
        "--export-chunks"@[2] == 'e',
        "--export-chunks"@[9] == 'c',
        "--import-chunks"@.len() == 15,
        "--import-chunks"@[1] == '-',
        "--import-chunks"@[2] == 'i',
        "--import-chunks"@[9] == 'c',
        "--entity-density"@.len() == 16,
        "--entity-density"@[1] == '-',
        "--delete-chunks"@.len() == 15,
        "--delete-chunks"@[1] == '-',
        "--delete-chunks"@[2] == 'd',
        "--delete-chunks"@[9] == 'c',
        "--batch-delete-chunks"@.len() == 21,
        "--batch-delete-chunks"@[1] == '-',
{
    reveal_strlit("--help");
    reveal_strlit("--players");
    reveal_strlit("-l");
    reveal_strlit("--actors");
    reveal_strlit("-a");
    reveal_strlit("--player");
    reveal_strlit("-p");
    reveal_strlit("--wipe-actors");
    reveal_strlit("--export-actors");
    reveal_strlit("--import-actors");
    reveal_strlit("--export-chunks");
    reveal_strlit("--import-chunks");
    reveal_strlit("--entity-density");
    reveal_strlit("--delete-chunks");
    reveal_strlit("--batch-delete-chunks");
}

/// The first word of a command is no integer.
proof fn lemma_word_is_no_number(s: Seq<char>)
    requires
        i32_text(s) is Some,
    ensures
        s.len() >= 1,
        s.len() >= 2 ==> is_digit(s[1]),
{
    if s[0] == '-' || s[0] == '+' {
        assert(is_digits(s.skip(1)));
        assert(s.skip(1)[0] == s[1]);
    }
}

/// A dimension is named in letters of either case, or by its number.
pub proof fn law_dimension_argument(args: Seq<Seq<char>>, i: int)
    requires
        is_ascii_chars(args[i]),
    ensures
        ({
            let name = lower_ascii(args[i]);
            match dim_at(args, i) {
                Ok(d) => d == 0 && (name == "overworld"@ || name == "0"@) || d == 1 && (name
                    == "nether"@ || name == "1"@) || d == 2 && (name == "end"@ || name == "2"@),
                Err(e) => e == ArgErrorView::Dimension(args[i]) && name != "overworld"@ && name
                    != "nether"@ && name != "end"@ && name != "0"@ && name != "1"@ && name != "2"@,
            }
        }),
{
    reveal_strlit("overworld");
    reveal_strlit("nether");
    reveal_strlit("end");
    reveal_strlit("0");
    reveal_strlit("1");
    reveal_strlit("2");
}

/// Three integers behind the path ask for the block at x, y and z, in the dimension that may follow
/// them and else in the overworld.
pub proof fn law_query_command(args: Seq<Seq<char>>, x: i32, y: i32, z: i32)
    requires
        args.len() == 5 || args.len() == 6,
        i32_text(args[2]) == Some(x),
        i32_text(args[3]) == Some(y),
        i32_text(args[4]) == Some(z),
    ensures
        match answer(args) {
            AnswerView::Run(CommandView::QueryBlock { world_path, x: a, y: b, z: c, dim_id }) => {
                &&& world_path == args[1]
                &&& a == x && b == y && c == z
                &&& args.len() == 5 ==> dim_id == 0
                &&& args.len() == 6 ==> dim_at(args, 5) == Ok::<u8, ArgErrorView>(dim_id)
            },
            AnswerView::Refuse(e) => args.len() == 6 && dim_at(args, 5) == Err::<u8, ArgErrorView>(
                e,
            ),
            _ => false,
        },
{
    lemma_words();
    lemma_word_is_no_number(args[2]);
}

/// Four integers behind `--delete-chunks` are the corners of the rectangle, x before z, in the
/// dimension that may follow them and else in the overworld.
pub proof fn law_delete_command(args: Seq<Seq<char>>, x1: i32, z1: i32, x2: i32, z2: i32)
    requires
        args.len() == 7 || args.len() == 8,
        args[2] == "--delete-chunks"@,
        i32_text(args[3]) == Some(x1),
        i32_text(args[4]) == Some(z1),
        i32_text(args[5]) == Some(x2),
        i32_text(args[6]) == Some(z2),
    ensures
        match answer(args) {
            AnswerView::Run(
                CommandView::DeleteChunks { world_path, bx1, bz1, bx2, bz2, dim_id },
            ) => {
                &&& world_path == args[1]
                &&& bx1 == x1 && bz1 == z1 && bx2 == x2 && bz2 == z2
                &&& args.len() == 7 ==> dim_id == 0
                &&& args.len() == 8 ==> dim_at(args, 7) == Ok::<u8, ArgErrorView>(dim_id)
            },
            AnswerView::Refuse(e) => args.len() == 8 && dim_at(args, 7) == Err::<u8, ArgErrorView>(
                e,
            ),
            _ => false,
        },
{
    lemma_words();
}

/// Behind `--export-chunks` and a file, two integers are a block of a single chunk and four the
/// corners of a rectangle, x before z. A dimension may follow, and else all are exported.
pub proof fn law_export_chunks_command(args: Seq<Seq<char>>, x1: i32, z1: i32, x2: i32, z2: i32)
    requires
        6 <= args.len() <= 9,
        args[2] == "--export-chunks"@,
        i32_text(args[4]) == Some(x1),
        i32_text(args[5]) == Some(z1),
        args.len() >= 8 ==> i32_text(args[6]) == Some(x2) && i32_text(args[7]) == Some(z2),
        args.len() < 8 ==> x2 == x1 && z2 == z1,
    ensures
        ({
            let n = args.len() as int;
            match answer(args) {
                AnswerView::Run(
                    CommandView::ExportChunks {
                        world_path,
                        output_file,
                        bx1,
                        bz1,
                        bx2,
                        bz2,
                        dimension,
                    },
                ) => {
                    &&& world_path == args[1] && output_file == args[3]
                    &&& bx1 == x1 && bz1 == z1 && bx2 == x2 && bz2 == z2
                    &&& match dimension {
                        Some(d) => (n == 7 || n == 9) && dim_at(args, n - 1) == Ok::<
                            u8,
                            ArgErrorView,
                        >(d),
                        None => n == 6 || n == 8,
                    }
                },
                AnswerView::Refuse(e) => (n == 7 || n == 9) && dim_at(args, n - 1) == Err::<
                    u8,
                    ArgErrorView,
                >(e),
                _ => false,
            }
        }),
{
    lemma_words();
}

/// An option is found where it first stands.
pub proof fn law_option_place(args: Seq<Seq<char>>, from: int, name: Seq<char>)
    requires
        0 <= from,
    ensures
        match option_place(args, from, name) {
            Some(i) => from <= i < args.len() && args[i] == name && forall|j: int|
                from <= j < i ==> #[trigger] args[j] != name,
            None => forall|j: int| from <= j < args.len() ==> #[trigger] args[j] != name,
        },
    decreases args.len() - from,
{
    if from < args.len() {
        law_option_place(args, from + 1, name);
    }
}

/// An import of chunks goes to the two integers behind the first `--to`, x before z, or without it
/// to where the chunks were. Existing keys are skipped exactly if `--skip-existing` is given. Only
/// with a target, `--dimension` names a dimension and `--dry-run` asks for a rehearsal.
pub proof fn law_import_chunks_command(args: Seq<Seq<char>>)
    requires
        args.len() >= 4,
        args[2] == "--import-chunks"@,
    ensures
        match answer(args) {
            AnswerView::Run(
                CommandView::ImportChunks {
                    world_path,
                    input_file,
                    skip_existing,
                    target,
                    dimension,
                    dry_run,
                },
            ) => {
                &&& world_path == args[1] && input_file == args[3]
                &&& skip_existing <==> exists|i: int|
                    4 <= i < args.len() && #[trigger] args[i] == "--skip-existing"@
                &&& match target {
                    None => dimension is None && !dry_run && forall|i: int|
                        4 <= i < args.len() ==> #[trigger] args[i] != "--to"@,
                    Some((x, z)) => {
                        &&& exists|i: int|
                            4 <= i && i + 2 < args.len() && #[trigger] args[i] == "--to"@ && i32_text(
                                args[i + 1],
                            ) == Some(x) && i32_text(args[i + 2]) == Some(z)
                        &&& dry_run <==> exists|i: int|
                            4 <= i < args.len() && #[trigger] args[i] == "--dry-run"@
                        &&& match dimension {
                            None => forall|i: int|
                                4 <= i < args.len() ==> #[trigger] args[i] != "--dimension"@,
                            Some(d) => exists|i: int|
                                4 <= i && i + 1 < args.len() && #[trigger] args[i] == "--dimension"@
                                    && dim_at(args, i + 1) == Ok::<u8, ArgErrorView>(d),
                        }
                    },
                }
            },
            AnswerView::Refuse(e) => exists|i: int|
                4 <= i < args.len() && #[trigger] args[i] == "--to"@,
            _ => false,
        },
{
    lemma_words();
    law_option_place(args, 4, "--to"@);
    law_option_place(args, 4, "--dimension"@);
    if let Some(i) = option_place(args, 4, "--to"@) {
        assert(args[i] == "--to"@);
    }
    if let Some(i) = option_place(args, 4, "--dimension"@) {
        assert(args[i] == "--dimension"@);
    }
}

/// Whether a word stands among the arguments from a place on.
pub open spec fn stands_from(args: Seq<Seq<char>>, from: int, word: Seq<char>) -> bool {
    args.skip(from).contains(word)
}

proof fn lemma_stands_from(args: Seq<Seq<char>>, from: int, word: Seq<char>)
    requires
        0 <= from <= args.len(),
    ensures
        has_option(args, from, word) <==> stands_from(args, from, word),
{
    if has_option(args, from, word) {
        let i = choose|i: int| from <= i < args.len() && #[trigger] args[i] == word;
        assert(args.skip(from)[i - from] == word);
    }
    if stands_from(args, from, word) {
        let i = args.skip(from).index_of(word);
        assert(args[i + from] == word);
    }
}

/// The commands with a file: an export of actors leaves players out exactly if `--no-players` is
/// given, an import of actors skips existing keys exactly if `--skip-existing` is, and a batch
/// deletion is inverted exactly if `--invert` is.
pub proof fn law_file_commands(args: Seq<Seq<char>>)
    requires
        args.len() >= 4,
    ensures
        args[2] == "--export-actors"@ ==> answer(args) == AnswerView::Run(
            CommandView::ExportActors {
                world_path: args[1],
                output_file: args[3],
                no_players: stands_from(args, 4, "--no-players"@),
            },
        ),
        args[2] == "--import-actors"@ ==> answer(args) == AnswerView::Run(
            CommandView::ImportActors {
                world_path: args[1],
                input_file: args[3],
                skip_existing: stands_from(args, 4, "--skip-existing"@),
            },
        ),
        args[2] == "--batch-delete-chunks"@ ==> answer(args) == AnswerView::Run(
            CommandView::BatchDeleteChunks {
                world_path: args[1],
                input_file: args[3],
                invert: stands_from(args, 4, "--invert"@),
            },
        ),
{
    lemma_words();
    lemma_stands_from(args, 4, "--no-players"@);
    lemma_stands_from(args, 4, "--skip-existing"@);
    lemma_stands_from(args, 4, "--invert"@);
}

/// The commands on a world and its players: a path alone asks for a summary, `--players` and
/// `--actors` for lists, and `--player` with a key for that player, dumped exactly if `--dump` or
/// `-d` is given and as JSON exactly if `--json` or `-j` is. `--wipe-actors` includes players
/// exactly if `--include-players` is given.
pub proof fn law_world_commands(args: Seq<Seq<char>>)
    requires
        args.len() >= 2,
    ensures
        args.len() == 2 && args[1] != "--help"@ ==> answer(args) == AnswerView::Run(
            CommandView::ShowInfo { world_path: args[1] },
        ),
        args.len() == 2 && args[1] == "--help"@ ==> answer(args) == AnswerView::Help(0),
        args.len() >= 3 && (args[2] == "--players"@ || args[2] == "-l"@) ==> answer(args)
            == AnswerView::Run(CommandView::ListPlayers { world_path: args[1] }),
        args.len() >= 3 && (args[2] == "--actors"@ || args[2] == "-a"@) ==> answer(args)
            == AnswerView::Run(CommandView::ListActors { world_path: args[1] }),
        args.len() >= 4 && (args[2] == "--player"@ || args[2] == "-p"@) ==> answer(args)
            == AnswerView::Run(
            CommandView::ShowPlayer {
                world_path: args[1],
                player_key: args[3],
                dump: stands_from(args, 4, "--dump"@) || stands_from(args, 4, "-d"@),
                json: stands_from(args, 4, "--json"@) || stands_from(args, 4, "-j"@),
            },
        ),
        args.len() >= 3 && args[2] == "--wipe-actors"@ ==> answer(args) == AnswerView::Run(
            CommandView::WipeActors {
                world_path: args[1],
                include_players: stands_from(args, 3, "--include-players"@),
            },
        ),
{
    lemma_words();
    if args.len() >= 3 {
        lemma_stands_from(args, 3, "--include-players"@);
    }
    if args.len() >= 4 {
        lemma_stands_from(args, 4, "--dump"@);
        lemma_stands_from(args, 4, "-d"@);
        lemma_stands_from(args, 4, "--json"@);
        lemma_stands_from(args, 4, "-j"@);
    }
}

/// The density of entities is asked for by groups of the size that follows, from 1 to 256, and else
/// by single chunks.
pub proof fn law_density_command(args: Seq<Seq<char>>)
    requires
        args.len() >= 3,
        args[2] == "--entity-density"@,
    ensures
        args.len() == 3 ==> answer(args) == AnswerView::Run(
            CommandView::EntityDensity { world_path: args[1], group_size: 1 },
        ),
        args.len() >= 4 ==> match u32_text(args[3]) {
            Some(n) => if 1 <= n <= 256 {
                answer(args) == AnswerView::Run(
                    CommandView::EntityDensity { world_path: args[1], group_size: n },
                )
            } else {
                answer(args) == AnswerView::Refuse(ArgErrorView::GroupSizeRange)
            },
            None => answer(args) == AnswerView::Refuse(ArgErrorView::GroupSizeFormat(args[3])),
        },
{
    lemma_words();
}

/// A coordinate that is not an integer is refused with its name and its text, the first one first.
pub proof fn law_bad_coordinates(args: Seq<Seq<char>>)
    ensures
        args.len() >= 7 && args[2] == "--delete-chunks"@ && i32_text(args[3]) is None ==> answer(args)
            == AnswerView::Refuse(ArgErrorView::Number("bx1"@, args[3])),
        args.len() >= 7 && args[2] == "--delete-chunks"@ && i32_text(args[3]) is Some && i32_text(
            args[4],
        ) is None ==> answer(args) == AnswerView::Refuse(ArgErrorView::Number("bz1"@, args[4])),
        args.len() == 6 && args[2] == "--export-chunks"@ && i32_text(args[4]) is None ==> answer(args)
            == AnswerView::Refuse(ArgErrorView::Number("bx"@, args[4])),
        args.len() == 6 && args[2] == "--export-chunks"@ && i32_text(args[4]) is Some && i32_text(
            args[5],
        ) is None ==> answer(args) == AnswerView::Refuse(ArgErrorView::Number("bz"@, args[5])),
{
    lemma_words();
}

} // verus!
