use rsedit::float::Float64;
use rsedit::installer::{
    app_menu_file, asset_pick, data_home, default_dir, desktop_dir, desktop_entry_body,
    desktop_folder, desktop_lnk, desktop_shortcut_file, download_fraction, download_percent,
    download_speed, exe_name, extract_archive, fault_message, find_build, home, installed_text,
    installed_version, is_busy, line_tone, plan_unpacking, ps_quote, start_menu_lnk, status_text,
    strip_top, uninstall_command, write_desktop, write_start_menu, Configured, Fault,
    Installation, Options, Phase, RawEntry, Release, ReleaseAsset, Step, Tone,
};
use std::io::Write;

#[test]
fn places_on_disk() {
    assert_eq!((exe_name(true), exe_name(false)), ("FastCutter.exe", "rsedit"));
    assert_eq!(home(Some("/h"), Some("/p")), "/h");
    assert_eq!(home(None, Some("/p")), "/p");
    assert_eq!(home(None, None), ".");
    assert_eq!(default_dir(false, None, "/h"), "/h/.local/share/rsedit");
    assert_eq!(default_dir(true, Some("C:\\L"), "/h"), "C:\\L\\Programs\\FastCutter");
    assert_eq!(default_dir(true, None, "/h"), ".\\Programs\\FastCutter");
    assert_eq!(data_home(Some("/d"), "/h"), "/d");
    assert_eq!(data_home(Some(""), "/h"), "/h/.local/share");
    assert_eq!(desktop_dir(None, "/h"), "/h/Desktop");
    assert_eq!(app_menu_file("/d"), "/d/applications/rsedit.desktop");
    assert_eq!(desktop_folder(" C:\\D \r\n", None), Ok("C:\\D".to_string()));
    assert_eq!(desktop_folder("", Some("C:\\U")), Ok("C:\\U\\Desktop".to_string()));
    assert_eq!(desktop_folder(" ", None), Err("no USERPROFILE".to_string()));
    assert_eq!(start_menu_lnk(None), Err("no APPDATA".to_string()));
    assert_eq!(
        start_menu_lnk(Some("C:\\A")),
        Ok("C:\\A\\Microsoft\\Windows\\Start Menu\\Programs\\rsedit.lnk".to_string())
    );
    assert_eq!(desktop_lnk(Ok("C:\\D".into())), Ok("C:\\D\\rsedit.lnk".to_string()));
    assert_eq!(desktop_lnk(Err("e".into())), Err("e".to_string()));
    assert_eq!(desktop_shortcut_file(false, Ok("/d".into()), "/h"), "/d/rsedit.desktop");
    assert_eq!(desktop_shortcut_file(true, Err("e".into()), "C:\\h"), "C:\\h\\Desktop\\rsedit.lnk");
}

#[test]
fn versions() {
    assert_eq!(installed_version(None), None);
    assert_eq!(installed_version(Some(" \n")), None);
    assert_eq!(installed_version(Some(" v1.2\n")), Some("v1.2".to_string()));
    assert_eq!(installed_text(Some("vv1.2")), "Installed: v1.2");
    assert_eq!(installed_text(None), "Not installed");
}

#[test]
fn quotes() {
    assert_eq!(ps_quote("it's 'so'"), "'it''s ''so'''");
    assert_eq!(ps_quote(""), "''");
}

fn asset(name: &str) -> ReleaseAsset {
    ReleaseAsset { name: name.into(), browser_download_url: format!("https://x/{}", name), size: 5_300_000 }
}

#[test]
fn builds_are_picked() {
    assert!(asset_pick("rsedit-windows-portable.zip", true));
    assert!(!asset_pick("rsedit-windows-portable.zip", false));
    assert!(asset_pick("rsedit-linux-x86_64.tar.gz", false));
    assert!(!asset_pick("rsedit-linux-x86_64.zip", false));
    assert!(!asset_pick("rsedit-linux-arm.tar.gz", false));
    let all = vec![asset("notes"), asset("a-linux-x86_64.tar.gz"), asset("b-linux-x86_64.tar.gz")];
    assert_eq!(find_build(&all, false), Some(1));
    assert_eq!(find_build(&all, true), None);
}

fn tar_gz() -> Vec<u8> {
    let mut gz = flate2::write::GzEncoder::new(Vec::new(), flate2::Compression::default());
    {
        let mut tar = tar::Builder::new(&mut gz);
        let mut h = tar::Header::new_gnu();
        h.set_entry_type(tar::EntryType::Directory);
        h.set_size(0);
        h.set_mode(0o755);
        tar.append_data(&mut h, "rsedit-1.0/lib/", &[][..]).unwrap();
        let mut h = tar::Header::new_gnu();
        h.set_size(5);
        h.set_mode(0o755);
        tar.append_data(&mut h, "rsedit-1.0/rsedit", &b"hello"[..]).unwrap();
        let mut h = tar::Header::new_gnu();
        h.set_size(3);
        h.set_mode(0o644);
        tar.append_data(&mut h, "top", &b"not"[..]).unwrap();
        let mut h = tar::Header::new_gnu();
        h.set_entry_type(tar::EntryType::Symlink);
        h.set_size(0);
        tar.append_link(&mut h, "rsedit-1.0/link", "rsedit").unwrap();
        tar.finish().unwrap();
    }
    gz.finish().unwrap()
}

fn show(steps: &[Step]) -> Vec<String> {
    steps
        .iter()
        .map(|s| match s {
            Step::Folder { path } => format!("folder {}", path),
            Step::File { path, data } => format!("file {} {}", path, String::from_utf8_lossy(data)),
            Step::Parent { path } => format!("parent {}", path),
        })
        .collect()
}

#[test]
fn tar_archives_are_unpacked() {
    let (steps, fault) = extract_archive(&tar_gz(), false);
    assert_eq!(show(&steps), vec!["folder lib/", "file rsedit hello", "parent link"]);
    assert!(fault.is_none());
    let (steps, fault) = extract_archive(&vec![1, 2, 3], false);
    assert!(steps.is_empty());
    assert!(matches!(fault, Some(Fault::Entry { .. })));
}

#[test]
fn zip_archives_are_unpacked() {
    let mut z = zip::ZipWriter::new(std::io::Cursor::new(Vec::new()));
    let o = zip::write::SimpleFileOptions::default();
    z.add_directory("rsedit/", o).unwrap();
    z.add_directory("rsedit/lib/", o).unwrap();
    z.start_file("rsedit\\rsedit.exe", o).unwrap();
    z.write_all(b"bytes").unwrap();
    let bytes = z.finish().unwrap().into_inner();
    let (steps, fault) = extract_archive(&bytes, true);
    assert_eq!(show(&steps), vec!["folder lib/", "file rsedit.exe bytes"]);
    assert!(fault.is_none());
    let (_, fault) = extract_archive(&vec![1, 2, 3], true);
    assert!(matches!(fault, Some(Fault::Archive { .. })));
}

#[test]
fn entries_and_faults() {
    assert_eq!(strip_top("a/b/c"), Some("b/c".to_string()));
    assert_eq!(strip_top("a\\b"), Some("b".to_string()));
    assert_eq!(strip_top("a/"), None);
    assert_eq!(strip_top("a"), None);
    let e = |name: &str, fault: Option<&str>| {
        Ok(RawEntry {
            name: name.into(),
            folder: false,
            file: true,
            data: vec![104],
            fault: fault.map(|s| s.to_string()),
        })
    };
    let read = Ok(vec![e("t/a", None), e("t/b", Some("cut")), e("t/c", None)]);
    let (steps, fault) = plan_unpacking(&read);
    assert_eq!(show(&steps), vec!["file a h", "file b h"]);
    assert_eq!(fault_message(&fault.unwrap(), "/i/b"), "extract /i/b: cut");
    let (steps, fault) = plan_unpacking(&Ok(vec![e("t/a", None), Err("bad".into()), e("t/c", None)]));
    assert_eq!(steps.len(), 1);
    assert_eq!(fault_message(&fault.unwrap(), ""), "entry: bad");
    let (_, fault) = plan_unpacking(&Err("no".into()));
    assert_eq!(fault_message(&fault.unwrap(), ""), "bad archive: no");
}

#[test]
fn shortcuts() {
    let body = desktop_entry_body("/i", "/i/icon.png");
    assert_eq!(
        body,
        "[Desktop Entry]\nType=Application\nName=rsedit\nComment=A minimal, fast, cross-platform video editor\nExec=/i/rsedit\nIcon=/i/icon.png\nTerminal=false\nCategories=AudioVideo;Video;AudioVideoEditing;\nKeywords=video;editor;cut;timeline;film;\nStartupNotify=true\n"
    );
    assert_eq!(write_start_menu("/i", "/m", false), body);
    assert_eq!(write_desktop("/i", "/m", false), body);
    assert_eq!(
        write_start_menu("C:\\i", "C:\\m.lnk", true),
        "$ws = New-Object -ComObject WScript.Shell;\n$lnk = $ws.CreateShortcut('C:\\m.lnk');\n$lnk.TargetPath = 'C:\\i\\FastCutter.exe';\n$lnk.WorkingDirectory = 'C:\\i';\n$lnk.IconLocation = 'C:\\i\\FastCutter.exe';\n$lnk.Description = 'rsedit video editor';\n$lnk.Save();"
    );
    assert!(!write_desktop("C:\\i", "C:\\m.lnk", true).contains("Description"));
    assert_eq!(uninstall_command("x.exe", false), "x.exe --uninstall");
    assert_eq!(uninstall_command("x.exe", true), "x.exe --uninstall --silent");
}

fn installation() -> Installation {
    Installation::new(Options { dir: "/i".into(), start_menu: true, desktop: true }, false)
}

fn is_error(i: &Installation, want: &str) -> bool {
    matches!(&i.phase, Phase::Error { msg } if msg == want)
}

#[test]
fn an_installation_from_start_to_end() {
    let mut i = installation();
    assert!(!is_busy(&i.phase));
    i.begin();
    assert!(is_busy(&i.phase));
    let r = Release { tag_name: "v2".into(), assets: vec![asset("a-linux-x86_64.tar.gz")] };
    let d = i.release_found(Ok(r)).unwrap();
    assert_eq!((d.url.as_str(), d.file.as_str()), ("https://x/a-linux-x86_64.tar.gz", "rsedit-v2.inst"));
    i.progress(1, 2, Float64 { bits: 0 });
    assert!(matches!(i.phase, Phase::Downloading { got: 1, total: 2, .. }));
    assert!(i.downloaded(Ok(()), false));
    assert!(matches!(i.phase, Phase::Extracting));
    assert_eq!(i.program(), "/i/rsedit");
    assert!(i.extracted(Ok(()), true));
    i.configured(Configured::StartMenu, Ok(()));
    i.configured(Configured::Desktop, Err("full".into()));
    i.configured(Configured::Registry, Ok(()));
    i.finish();
    assert!(matches!(&i.phase, Phase::Done { version } if version == "v2"));
    assert!(!is_busy(&i.phase));
    assert_eq!(
        i.log,
        vec![
            "Fetching latest release from GitHub…",
            "Latest release: v2",
            "Found a-linux-x86_64.tar.gz (5 MiB)",
            "Downloading portable build…",
            "Extracting to /i…",
            "Start menu shortcut created.",
            "Warning: desktop shortcut: full",
            "Uninstall entry registered.",
            "Installed."
        ]
    );
}

#[test]
fn installations_that_fail() {
    let mut i = installation();
    assert!(i.release_found(Err("cannot reach GitHub: x".into())).is_none());
    assert!(is_error(&i, "cannot reach GitHub: x") && !is_busy(&i.phase));
    assert_eq!(i.log, vec!["Error: cannot reach GitHub: x"]);
    let mut i = installation();
    assert!(i.release_found(Ok(Release { tag_name: "v".into(), assets: vec![] })).is_none());
    assert!(is_error(&i, "no portable build found for this platform in the latest release"));
    let mut i = installation();
    assert!(!i.downloaded(Err("cancelled".into()), true));
    assert!(matches!(i.phase, Phase::Idle) && !is_busy(&i.phase));
    assert_eq!(i.log, vec!["Install cancelled."]);
    assert!(!i.downloaded(Ok(()), true));
    assert!(!i.downloaded(Err("read error: x".into()), false));
    assert!(is_error(&i, "read error: x"));
    let mut i = installation();
    assert!(!i.extracted(Err("mkdir".into()), true));
    assert!(is_error(&i, "mkdir"));
    assert!(!i.extracted(Ok(()), false));
    assert!(is_error(&i, "installed program missing: /i/rsedit"));
}

#[test]
fn removals() {
    let mut i = installation();
    i.type_dir("  ");
    assert_eq!(i.options.dir, "/i");
    i.type_dir(" /j ");
    i.begin_removal();
    assert!(is_busy(&i.phase));
    i.removed(Ok(()));
    assert!(matches!(i.phase, Phase::Removed));
    assert_eq!(i.log, vec!["Removing /j…", "rsedit removed."]);
    i.removed(Err("busy".into()));
    assert!(is_error(&i, "busy"));
}

#[test]
fn the_log_keeps_its_last_lines() {
    let mut i = installation();
    for k in 0..450 {
        i.log_line(&format!("{}", k));
    }
    assert_eq!(i.log.len(), 400);
    assert_eq!((i.log[0].as_str(), i.log[399].as_str()), ("50", "449"));
    assert_eq!(line_tone("Warning: Error"), Tone::Warning);
    assert_eq!(line_tone("Error: x"), Tone::Error);
    assert_eq!(line_tone("ok"), Tone::Plain);
}

#[test]
fn downloads_in_numbers() {
    let s = |x: f64| Float64 { bits: x.to_bits() };
    let v = download_speed(3_000_000, 1_000_000, s(0.5));
    assert_eq!(v.bits, (2_000_000f64 / (1024.0 * 1024.0) / 0.5).to_bits());
    assert_eq!(download_speed(3, 1, s(0.0)).bits, 0);
    assert_eq!(download_fraction(1, 3).bits, (1.0f32 / 3.0).to_bits());
    assert_eq!(download_fraction(9, 3).bits, 1.0f32.to_bits());
    assert_eq!(download_fraction(9, 0).bits, 0);
    assert_eq!(download_percent(1, 3).bits, (1.0f32 / 3.0 * 100.0).to_bits());
    assert_eq!(download_percent(9, 3).bits, 100.0f32.to_bits());
}

#[test]
fn what_the_status_says() {
    let t = |p: &Phase| status_text(p, "/i", "42", "1 of 2");
    assert_eq!(t(&Phase::Idle).0, "Ready to install");
    assert_eq!(t(&Phase::Querying).1, "Contacting GitHub…");
    let p = Phase::Downloading { got: 1, total: 2, mbps: Float64 { bits: 0 } };
    assert_eq!(t(&p), ("Downloading… 42%".to_string(), "1 of 2".to_string()));
    assert_eq!(t(&Phase::Extracting).0, "Installing…");
    assert_eq!(t(&Phase::Configuring).0, "Almost done…");
    assert_eq!(
        t(&Phase::Done { version: "v2".into() }),
        ("Installed v2".to_string(), "rsedit is ready to use. Launch it from /i.".to_string())
    );
    assert_eq!(t(&Phase::Removing).0, "Uninstalling…");
    assert_eq!(t(&Phase::Removed).1, "rsedit has been removed.");
    assert_eq!(t(&Phase::Error { msg: "x".into() }).1, "x");
}
