use notebox::cmd::{ArgCmd, Command, SpecialCmd};
use notebox::ctx::{scan_step, upper_dir_step, ScanStep, UpperStep};
use notebox::ctx::{
    WhereStep, check_name, info_write_for_note, mk_pathstr_for_note, new_note, Ctx, CtxDef, CustomErr, DirChoice, DirMatch, EditTarget, LabelStep, LblInput,
    LblsSearch, NameFault, NoteScan, PatternOp, SearchOutcome,
};
use notebox::info::InfoJsonElem;
use notebox::store::{get_all_folders, ins_file, NoteStore};

const NDIR: &str = "/home/u/.everycom/notebox/note";

fn strings(v: &[&str]) -> Vec<String> {
    v.iter().map(|s| s.to_string()).collect()
}

fn scan(comps: &[&str], content: &str, lbls: &[&str], atts: &[(&str, i64)], mtime: i64) -> NoteScan {
    let mut info = InfoJsonElem::empty();
    info.lbls = strings(lbls);
    info.att = atts.iter().map(|(r, s)| (r.to_string(), *s)).collect();
    info.content = content.to_string();
    info.size = content.len() as i64;
    info.mtime = mtime;
    NoteScan { comps: strings(comps), info }
}

fn ctx_with(notes: Vec<NoteScan>) -> Ctx {
    let def = CtxDef::init("/home/u".to_string(), "notebox");
    let mut c = match Ctx::new(strings(&["prog"]), def) {
        Ok(c) => c,
        Err(e) => panic!("cannot open SQLite: {:?}", e),
    };
    c.read_notes(notes);
    c
}

/// Three notes: `a` (id 1), `w/b` (id 2) and `w/c` (id 3).
fn sample() -> Ctx {
    ctx_with(vec![
        scan(&["a"], "Say Hello\n", &["_pin"], &[("pics/x.png", 10)], 100),
        scan(&["w", "b"], "plain text\n", &[], &[], 300),
        scan(&["w", "c"], "```\nhello code\n```\nhttps://r.s\n", &["_old"], &[], 200),
    ])
}

fn fb(c: &Ctx) -> Vec<i64> {
    c.def().filter_buf.clone()
}

#[test]
fn places_under_the_home_folder() {
    let d = CtxDef::init("/home/u".to_string(), "notebox");
    assert_eq!(d.home(), "/home/u");
    assert_eq!(d.everycom, "/home/u/.everycom");
    assert_eq!(d.app_support_dir, "/home/u/.everycom/notebox");
    assert_eq!(d.lock_p, "/home/u/.everycom/notebox/lock");
    assert_eq!(d.ndir(), NDIR);
    assert!(d.filter_buf.is_empty() && d.chosen_dir.is_empty() && d.chosen_lbl.is_empty());
}

#[test]
fn argument_of_the_line() {
    let mut d = CtxDef::init("/h".to_string(), "p");
    d.iline = "lbl work".to_string();
    d.iline_argidx = 4;
    assert_eq!(d.ilinearg(), "work");
    assert!(d.iline.is_empty());
    assert_eq!(d.iline_argidx, 4);
}

#[test]
fn reading_numbers_notes_in_order() {
    let c = sample();
    let s = c.store();
    assert_eq!(s.num_files(), 3);
    assert_eq!(s.rel_of(1), Some("a".to_string()));
    assert_eq!(s.rel_of(2), Some("w/b".to_string()));
    assert_eq!(s.rel_of(3), Some("w/c".to_string()));
    assert_eq!(s.rel_of(4), None);
    assert_eq!(s.labels_of(1), strings(&["_pin"]));
    assert_eq!(s.labels_of(2), Vec::<String>::new());
    assert_eq!(s.labels_of(3), strings(&["_old", "_bm", "_code"]));
    let atts = s.atts_of(1);
    assert_eq!(atts.len(), 1);
    assert_eq!((atts[0].rel.as_str(), atts[0].size), ("pics/x.png", 10));
    assert_eq!(s.content_of(2), Some("plain text\n".to_string()));
}

#[test]
fn listing_and_toggling_entries() {
    let mut c = sample();
    assert!(c.iter_rows_to_update_filter_buf(vec![2, 1]));
    assert_eq!(fb(&c), vec![2, 1]);
    let (recs, n) = c.show_recs_in_filter_buf();
    assert_eq!(n, 0);
    assert_eq!(recs.len(), 2);
    assert_eq!((recs[0].idx, recs[0].tid, recs[0].selected), (0, 2, false));
    assert_eq!(recs[0].rel, "w/b");
    assert_eq!(recs[0].mtime_text, "1970-01-01 00:00:00.300 UTC");
    assert_eq!(recs[1].labels, "_pin");
    assert_eq!(recs[1].atts.len(), 1);
    assert!(c.toggle(1));
    assert_eq!(fb(&c), vec![2, -1]);
    let (recs, n) = c.show_recs_in_filter_buf();
    assert_eq!(n, 1);
    assert!(recs[1].selected);
    assert!(!c.toggle(2));
    assert!(c.toggle(1));
    assert_eq!(fb(&c), vec![2, 1]);
    assert!(!c.iter_rows_to_update_filter_buf(vec![]));
    assert_eq!(fb(&c), vec![2, 1]);
}

#[test]
fn selecting_all_and_none() {
    let mut c = sample();
    c.iter_rows_to_update_filter_buf(vec![3, 1, 2]);
    c.toggle(0);
    assert_eq!(c.mk_vec_of_selection(), vec![3]);
    c.cmd_all();
    assert_eq!(fb(&c), vec![-3, -1, -2]);
    assert_eq!(c.mk_vec_of_selection(), vec![3, 1, 2]);
    c.deselect();
    assert_eq!(fb(&c), vec![3, 1, 2]);
    assert!(c.mk_vec_of_selection().is_empty());
    c.cmd_reset();
    assert!(fb(&c).is_empty());
}

#[test]
fn labels_go_on_and_off_the_selected_notes() {
    let mut c = sample();
    c.iter_rows_to_update_filter_buf(vec![1, 2]);
    assert!(matches!(c.lbl_add("work"), LabelStep::NoSelection));
    c.cmd_all();
    match c.lbl_add("work") {
        LabelStep::Applied(l, tids) => {
            assert_eq!(l, "work");
            assert_eq!(tids, vec![1, 2]);
        }
        _ => panic!("label not applied"),
    }
    c.lbl_add("work");
    assert_eq!(c.store().labels_of(1), strings(&["_pin", "work"]));
    assert_eq!(c.store().labels_of(2), strings(&["work"]));
    assert_eq!(c.cmd_lbls(), strings(&["_bm", "_code", "_old", "_pin", "work"]));
    assert!(matches!(c.lbl_remove("work"), LabelStep::Applied(_, _)));
    assert_eq!(c.store().labels_of(1), strings(&["_pin"]));
    assert!(c.store().labels_of(2).is_empty());
}

#[test]
fn chosen_label_commands() {
    let mut c = sample();
    assert!(matches!(c.cmd_lbl_add(), LabelStep::NoLabel));
    c.set_line("lbl ".to_string());
    assert!(matches!(c.lbl_input(), LblInput::Empty));
    c.set_line("lbl _x".to_string());
    assert!(matches!(c.lbl_input(), LblInput::Reserved));
    assert!(c.def().chosen_lbl.is_empty());
    assert_eq!(c.set_line("lbl todo".to_string()), Command::WithArg(ArgCmd::Lbl, 4));
    assert!(matches!(c.lbl_input(), LblInput::Chosen));
    assert_eq!(c.def().chosen_lbl, "todo");
    assert!(matches!(c.cmd_lbl_add(), LabelStep::NoSelection));
    c.iter_rows_to_update_filter_buf(vec![2]);
    c.toggle(0);
    assert!(matches!(c.cmd_lbl_add(), LabelStep::Applied(_, _)));
    assert_eq!(c.store().labels_of(2), strings(&["todo"]));
    assert!(matches!(c.cmd_lbl_remove(), LabelStep::Applied(_, _)));
    assert!(c.store().labels_of(2).is_empty());
    assert_eq!(c.def().chosen_lbl, "todo");
}

#[test]
fn info_file_keeps_underscore_labels_only() {
    let mut c = sample();
    c.iter_rows_to_update_filter_buf(vec![1]);
    c.cmd_all();
    c.lbl_add("work");
    match info_write_for_note(&c, 1) {
        Ok((p, e)) => {
            assert_eq!(p, format!("{}/a/info", NDIR));
            assert_eq!(e.lbls, strings(&["_pin"]));
            assert!(e.content.is_empty() && e.rel.is_empty());
        }
        Err(_) => panic!("note 1 exists"),
    }
    assert!(matches!(info_write_for_note(&c, 9), Err(CustomErr::TmpidInvalid)));
}

#[test]
fn note_text_paths() {
    let c = sample();
    assert_eq!(mk_pathstr_for_note(&c, 2).ok(), Some(format!("{}/w/b/note", NDIR)));
    assert!(matches!(mk_pathstr_for_note(&c, 0), Err(CustomErr::TmpidInvalid)));
    assert_eq!(c.note_folder_path("w/c"), format!("{}/w/c", NDIR));
    assert_eq!(
        c.upper_dirs("x/y/z"),
        vec![format!("{}/x/y", NDIR), format!("{}/x", NDIR)]
    );
    assert!(c.upper_dirs("top").is_empty());
}

#[test]
fn label_search_and_choice() {
    let mut c = sample();
    c.set_line("lbls zzz".to_string());
    assert!(matches!(c.lbls_search(), LblsSearch::NoMatch));
    c.set_line("lbls pi".to_string());
    assert!(matches!(c.lbls_search(), LblsSearch::Chosen));
    assert_eq!(c.def().chosen_lbl, "_pin");
    c.set_line("lbls _".to_string());
    let list = match c.lbls_search() {
        LblsSearch::Choose(v) => v,
        _ => panic!("several labels contain _"),
    };
    assert_eq!(list, strings(&["_bm", "_code", "_old", "_pin"]));
    assert!(!c.choose_label(&list, "x"));
    assert!(!c.choose_label(&list, "4"));
    assert!(c.choose_label(&list, "1"));
    assert_eq!(c.def().chosen_lbl, "_code");
}

#[test]
fn plus_and_minus_need_one_matching_label() {
    let mut c = sample();
    c.iter_rows_to_update_filter_buf(vec![2]);
    c.cmd_all();
    assert_eq!(c.set_line("+o".to_string()), Command::Special(SpecialCmd::Plus));
    match c.plus() {
        LabelStep::NotOne(v) => assert_eq!(v, strings(&["_code", "_old"])),
        _ => panic!("two labels contain o"),
    }
    c.set_line("+pi".to_string());
    assert!(matches!(c.plus(), LabelStep::Applied(_, _)));
    assert_eq!(c.store().labels_of(2), strings(&["_pin"]));
    c.set_line("-pi".to_string());
    assert!(matches!(c.minus(), LabelStep::Applied(_, _)));
    assert!(c.store().labels_of(2).is_empty());
    c.set_line("+pi".to_string());
    match c.get_single_lbl_match() {
        Ok(l) => assert_eq!(l, "_pin"),
        Err(_) => panic!("one label contains pi"),
    }
}

#[test]
fn folders_listed_and_chosen() {
    let mut c = sample();
    let listing = c.dir_listing();
    assert_eq!(listing, vec![(true, "".to_string()), (false, "w".to_string())]);
    assert_eq!(get_all_folders(c.store()), strings(&["", "w"]));
    let names: Vec<String> = listing.into_iter().map(|x| x.1).collect();
    assert!(matches!(c.choose_dir(&names, "x"), DirChoice::InvalidIndex));
    assert!(matches!(c.choose_dir(&names, "2"), DirChoice::TooGreat));
    assert!(matches!(c.choose_dir(&names, "1"), DirChoice::Chosen));
    assert_eq!(c.def().chosen_dir, "w");
    assert_eq!(c.mk_full_path_of_chosen_dir(), format!("{}/w", NDIR));
    c.set_line("dir q".to_string());
    assert!(matches!(c.ca_dir(), DirMatch::NoMatch));
    c.set_line("dir ".to_string());
    match c.ca_dir() {
        DirMatch::Many(v) => assert_eq!(v, strings(&["", "w"])),
        _ => panic!("every folder contains the empty text"),
    }
    c.choose_dir(&names, "0");
    c.set_line("dir w".to_string());
    assert!(matches!(c.ca_dir(), DirMatch::One(_)));
    assert_eq!(c.def().chosen_dir, "w");
}

#[test]
fn recent_lists_the_newest_first() {
    let mut notes = Vec::new();
    for (i, m) in [50, 10, 70, 30, 60, 20].iter().enumerate() {
        notes.push(scan(&[&format!("n{}", i)], "x", &[], &[], *m));
    }
    let mut c = ctx_with(notes);
    assert!(c.cmd_recent_notes());
    assert_eq!(fb(&c), vec![3, 5, 1, 4, 6]);
    let mut empty = ctx_with(vec![]);
    assert!(!empty.cmd_recent_notes());
    let mut s = NoteStore::new();
    assert_eq!(s.get_avail_tmpid(), Some(1));
    let t = ins_file(&mut s, 5, "d/e");
    assert_eq!(t, 1);
    assert_eq!(s.get_avail_tmpid(), Some(2));
    assert_eq!(s.rel_of(1), Some("d/e".to_string()));
    assert_eq!(s.content_of(1), Some("\n".to_string()));
    assert_eq!(s.recent(5), vec![1]);
}

#[test]
fn edit_needs_exactly_one_selected_note_and_an_editor() {
    let mut c = sample();
    assert!(matches!(c.cmd_edit(), Ok(EditTarget::NoneSelected)));
    c.iter_rows_to_update_filter_buf(vec![1, 3]);
    c.cmd_all();
    assert!(matches!(c.cmd_edit(), Ok(EditTarget::MoreThanOne)));
    c.toggle(0);
    assert!(matches!(c.cmd_edit(), Ok(EditTarget::NoEditor)));
    c.set_editor_cmd(strings(&["vim", "-p"]));
    match c.cmd_edit() {
        Ok(EditTarget::Launch { program, args, path }) => {
            assert_eq!(program, "vim");
            assert_eq!(args, strings(&["-p"]));
            assert_eq!(path, format!("{}/w/c/note", NDIR));
        }
        _ => panic!("one note selected"),
    }
}

#[test]
fn cat_shows_the_selected_texts() {
    let mut c = sample();
    c.iter_rows_to_update_filter_buf(vec![2, 1, 3]);
    c.toggle(0);
    c.toggle(2);
    let (out, res) = c.cmd_cat();
    assert!(res.is_ok());
    assert_eq!(out.len(), 2);
    assert_eq!(out[0], (0, "plain text\n".to_string()));
    assert_eq!(out[1].0, 2);
    assert_eq!(c.selection_rels().ok().unwrap(), vec![(2, "w/b".to_string()), (3, "w/c".to_string())]);
}

#[test]
fn deleting_removes_the_selected_notes() {
    let mut c = sample();
    c.iter_rows_to_update_filter_buf(vec![1, 2, 3]);
    c.toggle(0);
    c.toggle(2);
    c.delete_selection();
    assert_eq!(fb(&c), vec![2]);
    assert_eq!(c.store().num_files(), 1);
    assert_eq!(c.store().rel_of(1), None);
    assert_eq!(c.store().rel_of(3), None);
    assert_eq!(c.store().rel_of(2), Some("w/b".to_string()));
    assert!(c.store().labels_of(1).is_empty());
    assert!(c.store().atts_of(1).is_empty());
    assert_eq!(c.store().num_lbls(), 0);
}

#[test]
fn where_builds_the_query_and_checks_its_answer() {
    let mut c = sample();
    c.set_line("where size > 3".to_string());
    assert_eq!(c.ca_where("mtime"), "SELECT tmpid from files where size > 3 order by mtime");
    c.iter_rows_to_update_filter_buf(vec![1, 2]);
    c.set_line("where rel like 'w%'".to_string());
    assert_eq!(
        c.ca_where(""),
        "SELECT tmpid from files where tmpid in(select tid from filter_buf) and (rel like 'w%')"
    );
    assert!(matches!(c.where_results(vec![2]), Ok(true)));
    assert_eq!(fb(&c), vec![2]);
    assert!(matches!(c.where_results(vec![]), Ok(false)));
    assert_eq!(fb(&c), vec![2]);
    assert!(matches!(c.where_results(vec![1, 1]), Err(CustomErr::DuplicateIds)));
    assert!(matches!(c.where_results(vec![i64::MIN]), Err(CustomErr::DuplicateIds)));
    assert_eq!(fb(&c), vec![2]);
    assert!(matches!(c.where_results(vec![3, -3]), Ok(true)));
    assert_eq!(fb(&c), vec![3, -3]);
    assert!(matches!(c.where_results(vec![7, 2]), Ok(true)));
    assert_eq!(fb(&c), vec![7, 2]);
}

#[test]
fn path_components_of_a_new_note_are_checked() {
    assert_eq!(check_name("ab-c_1"), None);
    assert_eq!(check_name(""), Some(NameFault::Empty));
    assert_eq!(check_name("a.b"), Some(NameFault::BadChar));
    assert_eq!(check_name("-ab"), Some(NameFault::BadFirst));
    assert_eq!(check_name("ab_"), Some(NameFault::BadLast));
    let mut c = sample();
    c.set_line("new x/y".to_string());
    let plan = c.plan_new_note();
    assert_eq!(plan.comps, strings(&["x", "y"]));
    assert_eq!(plan.dirs, vec![format!("{}/x", NDIR), format!("{}/x/y", NDIR)]);
    assert!(plan.fault.is_none());
    c.set_line("new x\\y//z".to_string());
    let plan = c.plan_new_note();
    assert_eq!(plan.comps, strings(&["x", "y", "", "z"]));
    assert_eq!(plan.fault, Some((2, NameFault::Empty)));
    assert_eq!(plan.dirs.len(), 2);
    c.set_line("new ok/b@d".to_string());
    assert_eq!(c.plan_new_note().fault, Some((1, NameFault::BadChar)));
}

#[test]
fn a_new_note_lands_in_the_chosen_folder_selected() {
    let mut c = sample();
    c.iter_rows_to_update_filter_buf(vec![1, 2]);
    c.cmd_all();
    let names = strings(&["", "w"]);
    c.choose_dir(&names, "1");
    c.set_line("new n1".to_string());
    let plan = c.plan_new_note();
    assert_eq!(plan.dirs, vec![format!("{}/w/n1", NDIR)]);
    match new_note(&mut c, &plan.comps, 999) {
        Ok((tid, e)) => {
            assert_eq!(tid, 4);
            assert_eq!(e.rel, "w/n1");
            assert_eq!(e.content, "\n");
            assert_eq!((e.tmpid, e.size, e.mtime), (4, 1, 999));
        }
        Err(_) => panic!("ids are left"),
    }
    assert_eq!(fb(&c), vec![-1, -2]);
    assert!(c.select_new_note(4).is_ok());
    assert_eq!(fb(&c), vec![1, 2, -4]);
    assert_eq!(c.store().rel_of(4), Some("w/n1".to_string()));
    assert_eq!(mk_pathstr_for_note(&c, 4).ok(), Some(format!("{}/w/n1/note", NDIR)));
}

#[test]
fn like_search_is_case_insensitive_and_narrows() {
    let mut c = sample();
    c.set_line("like ".to_string());
    assert!(matches!(c.ca_like(), Ok(SearchOutcome::EmptyPattern)));
    c.set_line("like hello".to_string());
    assert!(matches!(c.ca_like(), Ok(SearchOutcome::Updated)));
    assert_eq!(fb(&c), vec![1, 3]);
    c.set_line("like CODE".to_string());
    assert!(matches!(c.ca_like(), Ok(SearchOutcome::Updated)));
    assert_eq!(fb(&c), vec![3]);
    c.set_line("like nowhere".to_string());
    assert!(matches!(c.ca_like(), Ok(SearchOutcome::NothingFound)));
    assert_eq!(fb(&c), vec![3]);
    c.cmd_reset();
    c.set_line("like x.png".to_string());
    assert!(matches!(c.ca_like(), Ok(SearchOutcome::Updated)));
    assert_eq!(fb(&c), vec![1]);
    c.cmd_reset();
    c.set_line("like w/b".to_string());
    assert!(matches!(c.ca_like(), Ok(SearchOutcome::Updated)));
    assert_eq!(fb(&c), vec![2]);
}

#[test]
fn glob_search_matches_prefixes_case_sensitively() {
    let mut c = sample();
    assert_eq!(c.set_line("/Say".to_string()), Command::Special(SpecialCmd::Glob));
    assert!(matches!(c.slash(), Ok(SearchOutcome::Updated)));
    assert_eq!(fb(&c), vec![1]);
    c.cmd_reset();
    c.set_line("/say".to_string());
    assert!(matches!(c.slash(), Ok(SearchOutcome::NothingFound)));
    c.set_line("/_".to_string());
    assert!(matches!(c.slash(), Ok(SearchOutcome::Updated)));
    assert_eq!(fb(&c), vec![1, 3]);
    c.set_line("/".to_string());
    assert!(matches!(c.slash(), Ok(SearchOutcome::EmptyPattern)));
    assert!(matches!(c.search(PatternOp::Glob, "w/*"), Ok(true)));
    assert_eq!(fb(&c), vec![3]);
}

#[test]
fn reload_starts_from_nothing() {
    let mut c = sample();
    c.iter_rows_to_update_filter_buf(vec![1]);
    let names = strings(&["", "w"]);
    c.choose_dir(&names, "1");
    c.reload_clear();
    assert!(fb(&c).is_empty());
    assert!(c.def().chosen_dir.is_empty() && c.def().chosen_lbl.is_empty());
    assert_eq!(c.store().num_files(), 0);
    c.read_notes(vec![scan(&["z"], "t", &[], &[], 1)]);
    assert_eq!(c.store().rel_of(1), Some("z".to_string()));
}

#[test]
fn digit_lines_toggle_entries() {
    let mut c = sample();
    c.iter_rows_to_update_filter_buf(vec![3, 2]);
    match c.set_line("1".to_string()) {
        Command::Index(Some(i)) => assert!(c.toggle(i)),
        other => panic!("not an index: {:?}", other),
    }
    assert_eq!(fb(&c), vec![3, -2]);
}

#[test]
fn sqlite_errors_are_reported() {
    let mut c = sample();
    let long = "a".repeat(60_000);
    assert!(matches!(c.search(PatternOp::Like, &long), Err(CustomErr::Sql(_))));
    assert!(fb(&c).is_empty());
}

#[test]
fn searching_no_notes_finds_nothing_without_asking_sqlite() {
    let mut c = ctx_with(vec![]);
    assert!(matches!(c.search(PatternOp::Like, &"a".repeat(60_000)), Ok(false)));
    assert!(fb(&c).is_empty());
}

#[test]
fn where_runs_the_query_on_the_notes() {
    let mut c = sample();
    c.set_line("where size > 11".to_string());
    assert!(matches!(c.run_where(""), Ok(WhereStep::Listed)));
    assert_eq!(fb(&c), vec![3]);
    c.set_line("where 1".to_string());
    assert!(matches!(c.run_where("tmpid desc"), Ok(WhereStep::Listed)));
    assert_eq!(fb(&c), vec![3]);
    c.cmd_reset();
    c.set_line("where 1".to_string());
    assert!(matches!(c.run_where("mtime desc"), Ok(WhereStep::Listed)));
    assert_eq!(fb(&c), vec![2, 3, 1]);
    c.set_line("where tmpid in (select tmpid from lbls where lbl = '_pin')".to_string());
    assert!(matches!(c.run_where(""), Ok(WhereStep::Listed)));
    assert_eq!(fb(&c), vec![1]);
    c.set_line("where rel = 'nowhere'".to_string());
    assert!(matches!(c.run_where(""), Ok(WhereStep::NothingFound)));
    assert_eq!(fb(&c), vec![1]);
    c.set_line("where no such column".to_string());
    assert!(matches!(c.run_where(""), Ok(WhereStep::NotPrepared)));
    assert_eq!(fb(&c), vec![1]);
    c.cmd_reset();
    c.set_line("where 0 union select 9".to_string());
    assert!(matches!(c.run_where(""), Ok(WhereStep::Listed)));
    assert_eq!(fb(&c), vec![9]);
}

#[test]
fn ids_that_name_no_note() {
    let mut c = sample();
    assert!(c.where_results(vec![9, 2]).is_ok());
    let (recs, _) = c.show_recs_in_filter_buf();
    assert!(!recs[0].found && recs[0].rel.is_empty());
    assert!(recs[1].found);
    assert!(c.cmd_cat().1.is_ok());
    c.toggle(1);
    c.toggle(0);
    let (shown, res) = c.cmd_cat();
    assert!(matches!(res, Err(CustomErr::TmpidInvalid)));
    assert!(shown.is_empty());
    c.toggle(1);
    assert!(matches!(c.selection_rels(), Err(CustomErr::TmpidInvalid)));
    c.set_editor_cmd(strings(&["vim"]));
    assert!(matches!(c.cmd_edit(), Err(CustomErr::TmpidInvalid)));
    c.set_line("new n9".to_string());
    let plan = c.plan_new_note();
    c.where_results(vec![4]).ok();
    assert!(matches!(new_note(&mut c, &plan.comps, 1), Ok((4, _))));
    assert_eq!(c.store().num_files(), 4);
    assert!(matches!(c.select_new_note(4), Err(CustomErr::DuplicateIds)));
    assert_eq!(fb(&c), vec![4]);
}

#[test]
fn taking_the_argument_keeps_its_index() {
    let mut c = sample();
    c.set_line("lbl work".to_string());
    assert_eq!(c.ilinearg(), "work");
    assert!(c.def().iline.is_empty());
    assert_eq!(c.def().iline_argidx, 4);
}

#[test]
fn searching_with_no_note_in_scope_finds_nothing() {
    let mut c = ctx_with(vec![]);
    c.set_line("like x".to_string());
    assert!(matches!(c.ca_like(), Ok(SearchOutcome::NothingFound)));
    c.set_line("/x".to_string());
    assert!(matches!(c.slash(), Ok(SearchOutcome::NothingFound)));
}

#[test]
fn walk_and_cleanup_steps() {
    assert_eq!(scan_step(false, false), ScanStep::Ignore);
    assert_eq!(scan_step(true, true), ScanStep::Note);
    assert_eq!(scan_step(true, false), ScanStep::Descend);
    assert_eq!(upper_dir_step(true), UpperStep::Stop);
    assert_eq!(upper_dir_step(false), UpperStep::Remove);
}

#[test]
fn adding_then_removing_a_new_label_restores_the_labels() {
    let mut c = sample();
    c.iter_rows_to_update_filter_buf(vec![1, 3]);
    c.cmd_all();
    let before: Vec<(i64, String)> = (0..c.store().num_lbls())
        .map(|i| (c.store().lbl_at(i).tmpid, c.store().lbl_at(i).lbl.clone()))
        .collect();
    c.lbl_add("fresh");
    c.lbl_remove("fresh");
    let after: Vec<(i64, String)> = (0..c.store().num_lbls())
        .map(|i| (c.store().lbl_at(i).tmpid, c.store().lbl_at(i).lbl.clone()))
        .collect();
    assert_eq!(before, after);
}

#[test]
fn cat_shows_the_entries_before_a_missing_note() {
    let mut c = sample();
    c.where_results(vec![2, 9, 3]).ok();
    c.cmd_all();
    let (shown, res) = c.cmd_cat();
    assert!(matches!(res, Err(CustomErr::TmpidInvalid)));
    assert_eq!(shown, vec![(0, "plain text\n".to_string())]);
}

#[test]
fn the_listed_table_decides_what_a_search_looks_at() {
    let mut c = sample();
    c.where_results(vec![-1, 3]).ok();
    c.set_line("like hello".to_string());
    assert!(matches!(c.ca_like(), Ok(SearchOutcome::Updated)));
    assert_eq!(fb(&c), vec![3]);
}

#[test]
fn plus_keeps_everything_but_the_labels_and_the_line() {
    let mut c = sample();
    let names = strings(&["", "w"]);
    c.choose_dir(&names, "1");
    c.iter_rows_to_update_filter_buf(vec![2]);
    c.cmd_all();
    c.set_line("+pi".to_string());
    c.plus();
    assert_eq!(c.def().chosen_dir, "w");
    assert!(c.def().iline.is_empty());
    assert_eq!(fb(&c), vec![-2]);
}
