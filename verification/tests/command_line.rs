use world_inspector::cli::{dimension_argument, parse_args, Answer, ArgError, Command};

fn answer(args: &[&str]) -> Answer {
    let mut all = vec!["world-inspector".to_string()];
    all.extend(args.iter().map(|s| s.to_string()));
    parse_args(&all)
}

fn command(args: &[&str]) -> Command {
    match answer(args) {
        Answer::Run(c) => c,
        _ => panic!("refused: {:?}", args),
    }
}

fn refusal(args: &[&str]) -> ArgError {
    match answer(args) {
        Answer::Refuse(e) => e,
        _ => panic!("not refused: {:?}", args),
    }
}

#[test]
fn help_is_shown() {
    assert!(matches!(parse_args(&vec![]), Answer::Help(1)));
    assert!(matches!(answer(&[]), Answer::Help(1)));
    assert!(matches!(answer(&["--help"]), Answer::Help(0)));
}

#[test]
fn worlds_are_shown_and_listed() {
    assert!(matches!(command(&["w"]), Command::ShowInfo { world_path } if world_path == "w"));
    for flag in ["--players", "-l"] {
        assert!(matches!(command(&["w", flag, "more"]), Command::ListPlayers { world_path } if world_path == "w"));
    }
    for flag in ["--actors", "-a"] {
        assert!(matches!(command(&["w", flag]), Command::ListActors { world_path } if world_path == "w"));
    }
}

#[test]
fn blocks_are_queried() {
    assert!(matches!(
        command(&["w", "-3", "-60", "+3"]),
        Command::QueryBlock { world_path, x: -3, y: -60, z: 3, dim_id: 0 } if world_path == "w"
    ));
    assert!(matches!(
        command(&["w", "0", "100", "0", "NETHER"]),
        Command::QueryBlock { x: 0, y: 100, z: 0, dim_id: 1, .. }
    ));
    assert!(matches!(command(&["w", "0", "1", "2", "end", "x"]), Command::QueryBlock { dim_id: 2, .. }));
    assert!(matches!(refusal(&["w", "1"]), ArgError::MissingCoordinates));
    assert!(matches!(refusal(&["w", "1", "2"]), ArgError::MissingCoordinates));
    assert!(matches!(refusal(&["w", "a", "b", "c"]), ArgError::Number(n, s) if n == "x" && s == "a"));
    assert!(matches!(refusal(&["w", "1", "b", "c"]), ArgError::Number(n, s) if n == "y" && s == "b"));
    assert!(matches!(refusal(&["w", "1", "2", "c"]), ArgError::Number(n, s) if n == "z" && s == "c"));
    assert!(matches!(refusal(&["w", "1", "2", "3", "Sky"]), ArgError::Dimension(s) if s == "Sky"));
}

#[test]
fn players_are_shown() {
    assert!(matches!(
        command(&["w", "--player", "k"]),
        Command::ShowPlayer { player_key, dump: false, json: false, .. } if player_key == "k"
    ));
    assert!(matches!(
        command(&["w", "-p", "k", "-j", "--dump"]),
        Command::ShowPlayer { dump: true, json: true, .. }
    ));
    assert!(matches!(
        command(&["w", "--player", "--dump", "-d"]),
        Command::ShowPlayer { player_key, dump: true, json: false, .. } if player_key == "--dump"
    ));
    assert!(matches!(refusal(&["w", "--player"]), ArgError::MissingCoordinates));
}

#[test]
fn actors_are_managed() {
    assert!(matches!(command(&["w", "--wipe-actors"]), Command::WipeActors { include_players: false, .. }));
    assert!(matches!(
        command(&["w", "--wipe-actors", "--include-players"]),
        Command::WipeActors { include_players: true, .. }
    ));
    assert!(matches!(
        command(&["w", "--export-actors", "f", "--no-players"]),
        Command::ExportActors { output_file, no_players: true, .. } if output_file == "f"
    ));
    assert!(matches!(
        command(&["w", "--import-actors", "f"]),
        Command::ImportActors { input_file, skip_existing: false, .. } if input_file == "f"
    ));
    assert!(matches!(
        command(&["w", "--import-actors", "f", "x", "--skip-existing"]),
        Command::ImportActors { skip_existing: true, .. }
    ));
}

#[test]
fn chunks_are_exported() {
    assert!(matches!(
        command(&["w", "--export-chunks", "f", "0", "64"]),
        Command::ExportChunks { bx1: 0, bz1: 64, bx2: 0, bz2: 64, dimension: None, .. }
    ));
    assert!(matches!(
        command(&["w", "--export-chunks", "f", "0", "64", "end"]),
        Command::ExportChunks { bx1: 0, bz1: 64, bx2: 0, bz2: 64, dimension: Some(2), .. }
    ));
    assert!(matches!(
        command(&["w", "--export-chunks", "f", "-100", "64", "200", "128"]),
        Command::ExportChunks { bx1: -100, bz1: 64, bx2: 200, bz2: 128, dimension: None, .. }
    ));
    assert!(matches!(
        command(&["w", "--export-chunks", "f", "-100", "64", "200", "128", "overworld"]),
        Command::ExportChunks { output_file, dimension: Some(0), .. } if output_file == "f"
    ));
    for wrong in [vec!["w", "--export-chunks", "f"], vec!["w", "--export-chunks", "f", "1"], vec!["w", "--export-chunks", "f", "1", "2", "3", "4", "5", "6"]] {
        assert!(matches!(refusal(&wrong), ArgError::ChunkCoordinates));
    }
    assert!(matches!(refusal(&["w", "--export-chunks", "f", "a", "b"]), ArgError::Number(n, _) if n == "bx"));
    assert!(matches!(refusal(&["w", "--export-chunks", "f", "1", "b"]), ArgError::Number(n, _) if n == "bz"));
    assert!(matches!(refusal(&["w", "--export-chunks", "f", "1", "2", "c", "4"]), ArgError::Number(n, _) if n == "bx2"));
    assert!(matches!(refusal(&["w", "--export-chunks", "f", "1", "2", "3"]), ArgError::Dimension(s) if s == "3"));
}

#[test]
fn chunks_are_imported() {
    assert!(matches!(
        command(&["w", "--import-chunks", "f"]),
        Command::ImportChunks { skip_existing: false, target: None, dimension: None, dry_run: false, .. }
    ));
    assert!(matches!(
        command(&["w", "--import-chunks", "f", "--to", "1000", "-500", "--dimension", "overworld", "--dry-run"]),
        Command::ImportChunks { input_file, target: Some((1000, -500)), dimension: Some(0), dry_run: true, skip_existing: false, .. } if input_file == "f"
    ));
    assert!(matches!(
        command(&["w", "--import-chunks", "f", "--skip-existing", "--to", "1", "2"]),
        Command::ImportChunks { skip_existing: true, target: Some((1, 2)), dimension: None, dry_run: false, .. }
    ));
    assert!(matches!(refusal(&["w", "--import-chunks", "f", "--to", "1"]), ArgError::MissingTarget));
    assert!(matches!(refusal(&["w", "--import-chunks", "f", "--to", "1", "x"]), ArgError::Number(n, s) if n == "bz" && s == "x"));
    assert!(matches!(refusal(&["w", "--import-chunks", "f", "--to", "1", "2", "--dimension"]), ArgError::MissingDimension));
    assert!(matches!(refusal(&["w", "--import-chunks", "f", "--to", "1", "2", "--dimension", "x"]), ArgError::Dimension(_)));
    // Without a target the other options mean nothing.
    for words in [vec!["--dry-run"], vec!["--dimension", "end"], vec!["--dimension", "x"], vec!["--dimension"]] {
        let mut line = vec!["w", "--import-chunks", "f"];
        line.extend(words);
        assert!(matches!(
            command(&line),
            Command::ImportChunks { skip_existing: false, target: None, dimension: None, dry_run: false, .. }
        ));
    }
    assert!(matches!(
        command(&["w", "--import-chunks", "f", "--dry-run", "--skip-existing"]),
        Command::ImportChunks { skip_existing: true, target: None, .. }
    ));
    assert!(matches!(
        command(&["w", "--import-chunks", "f", "--to", "1", "2", "--dimension", "NetHer"]),
        Command::ImportChunks { dimension: Some(1), .. }
    ));
}

#[test]
fn density_is_by_groups() {
    assert!(matches!(command(&["w", "--entity-density"]), Command::EntityDensity { group_size: 1, .. }));
    assert!(matches!(command(&["w", "--entity-density", "256"]), Command::EntityDensity { group_size: 256, .. }));
    assert!(matches!(refusal(&["w", "--entity-density", "0"]), ArgError::GroupSizeRange));
    assert!(matches!(refusal(&["w", "--entity-density", "257"]), ArgError::GroupSizeRange));
    assert!(matches!(refusal(&["w", "--entity-density", "-1"]), ArgError::GroupSizeFormat(s) if s == "-1"));
}

#[test]
fn chunks_are_deleted() {
    assert!(matches!(
        command(&["w", "--delete-chunks", "0", "1", "2", "3"]),
        Command::DeleteChunks { bx1: 0, bz1: 1, bx2: 2, bz2: 3, dim_id: 0, .. }
    ));
    assert!(matches!(
        command(&["w", "--delete-chunks", "-50", "-50", "50", "50", "Nether"]),
        Command::DeleteChunks { dim_id: 1, .. }
    ));
    assert!(matches!(refusal(&["w", "--delete-chunks", "0", "1", "2", "3", "4"]), ArgError::Dimension(_)));
    assert!(matches!(refusal(&["w", "--delete-chunks", "0", "1", "2", "x"]), ArgError::Number(n, _) if n == "bz2"));
    // With too few coordinates the word is taken for one.
    assert!(matches!(refusal(&["w", "--delete-chunks", "0", "1", "2"]), ArgError::Number(n, _) if n == "x"));
    assert!(matches!(
        command(&["w", "--batch-delete-chunks", "f", "--invert"]),
        Command::BatchDeleteChunks { input_file, invert: true, .. } if input_file == "f"
    ));
    assert!(matches!(
        command(&["w", "--batch-delete-chunks", "f"]),
        Command::BatchDeleteChunks { invert: false, .. }
    ));
}

#[test]
fn dimensions_have_names_and_numbers() {
    assert_eq!(dimension_argument("overworld"), Some(0));
    assert_eq!(dimension_argument("0"), Some(0));
    assert_eq!(dimension_argument("1"), Some(1));
    assert_eq!(dimension_argument("2"), Some(2));
    assert_eq!(dimension_argument("3"), None);
    assert_eq!(dimension_argument("Nether"), None);
}
