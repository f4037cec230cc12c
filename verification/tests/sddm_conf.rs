use swaybg_tui::config::Config;
use swaybg_tui::sddm::{rewrite_theme_conf, SddmEvent, SddmJob, SddmStage, SddmStep};

#[test]
fn rewrite_replaces_background_lines() {
    let conf = "[General]\nbackground=Backgrounds/old.png\n  Background=x\nother=1\n";
    assert_eq!(
        rewrite_theme_conf(conf, "new.jpg"),
        "[General]\nbackground=Backgrounds/new.jpg\nbackground=Backgrounds/new.jpg\nother=1"
    );
}

#[test]
fn rewrite_appends_when_missing() {
    assert_eq!(rewrite_theme_conf("[General]\r\ntype=image", "a.png"), "[General]\ntype=image\nbackground=Backgrounds/a.png");
    assert_eq!(rewrite_theme_conf("", "a.png"), "background=Backgrounds/a.png");
    assert_eq!(rewrite_theme_conf("\n\nx\n", "a.png"), "\n\nx\nbackground=Backgrounds/a.png");
    assert_eq!(rewrite_theme_conf("backgroundColor=red", "a.png"), "backgroundColor=red\nbackground=Backgrounds/a.png");
    assert_eq!(rewrite_theme_conf("\u{a0}\tbackground=", "a.png"), "background=Backgrounds/a.png");
}

#[test]
fn rewrite_agrees_with_line_by_line_update() {
    let samples = [
        "", "\n", "a", "a\n", "a\r\nb\r\n", "background=1\nbackground=2", " \t Background=z\r", "x\r", "\r\n\r\n",
        "[General]\nbackground=Backgrounds/x.png\nfont=Sans", "backgroundx=1", "Background =1",
    ];
    for s in samples {
        let mut new_lines = Vec::new();
        let mut found = false;
        for line in s.lines() {
            if line.trim_start().starts_with("background=") || line.trim_start().starts_with("Background=") {
                new_lines.push("background=Backgrounds/n.png".to_string());
                found = true;
            } else {
                new_lines.push(line.to_string());
            }
        }
        if !found {
            new_lines.push("background=Backgrounds/n.png".to_string());
        }
        assert_eq!(rewrite_theme_conf(s, "n.png"), new_lines.join("\n"), "{s:?}");
    }
}

fn config() -> Config {
    Config {
        default_wallpaper_dir: "/w".to_string(),
        omadora_background_path: "/bg".to_string(),
        sddm_theme_dir: "/usr/share/sddm/themes/t".to_string(),
        sddm_theme_conf: "/usr/share/sddm/themes/t/theme.conf".to_string(),
    }
}

#[test]
fn sddm_job_runs_all_steps() {
    let (mut job, step) = SddmJob::start("/w/pic.png", &config()).unwrap();
    assert!(matches!(step, SddmStep::CheckSudo));
    assert_eq!(job.file_name, "pic.png");
    assert_eq!(job.dest, "/usr/share/sddm/themes/t/Backgrounds/pic.png");
    match job.advance(SddmEvent::Status(Ok(true))) {
        SddmStep::Copy { src, dest } => {
            assert_eq!(src, "/w/pic.png");
            assert_eq!(dest, "/usr/share/sddm/themes/t/Backgrounds/pic.png");
        }
        other => panic!("{other:?}"),
    }
    assert!(matches!(job.advance(SddmEvent::Status(Ok(true))), SddmStep::FindUser));
    match job.advance(SddmEvent::User(Ok("alice".to_string()))) {
        SddmStep::Chown { owner, path } => {
            assert_eq!(owner, "alice:alice");
            assert_eq!(path, "/usr/share/sddm/themes/t/Backgrounds/pic.png");
        }
        other => panic!("{other:?}"),
    }
    match job.advance(SddmEvent::Status(Ok(true))) {
        SddmStep::ReadConf { path } => assert_eq!(path, "/usr/share/sddm/themes/t/theme.conf"),
        other => panic!("{other:?}"),
    }
    match job.advance(SddmEvent::Conf(Ok("[General]\nbackground=a.png\n".to_string()))) {
        SddmStep::WriteConf { path, content } => {
            assert_eq!(path, "/usr/share/sddm/themes/t/theme.conf");
            assert_eq!(content, "[General]\nbackground=Backgrounds/pic.png");
        }
        other => panic!("{other:?}"),
    }
    assert!(matches!(job.advance(SddmEvent::Status(Ok(true))), SddmStep::Done));
    assert_eq!(job.stage, SddmStage::Finished);
}

#[test]
fn sddm_job_failures() {
    let (mut job, _) = SddmJob::start("pic.png", &config()).unwrap();
    match job.advance(SddmEvent::Status(Err("no sudo".to_string()))) {
        SddmStep::Failed(f) => {
            assert_eq!(f.message, "SDDM wallpaper setting requires sudo access. Run with sudo or configure passwordless sudo.");
            assert!(f.cause.is_none());
        }
        other => panic!("{other:?}"),
    }
    assert_eq!(job.stage, SddmStage::Finished);

    let (mut job, _) = SddmJob::start("pic.png", &config()).unwrap();
    job.advance(SddmEvent::Status(Ok(true)));
    match job.advance(SddmEvent::Status(Ok(false))) {
        SddmStep::Failed(f) => assert_eq!(f.message, "Failed to copy image to SDDM theme directory"),
        other => panic!("{other:?}"),
    }

    let (mut job, _) = SddmJob::start("pic.png", &config()).unwrap();
    job.advance(SddmEvent::Status(Ok(true)));
    job.advance(SddmEvent::Status(Ok(true)));
    match job.advance(SddmEvent::User(Err("environment variable not found".to_string()))) {
        SddmStep::Failed(f) => {
            assert_eq!(f.message, "Could not determine current username from USER or USERNAME environment variables");
            assert_eq!(f.cause.as_deref(), Some("environment variable not found"));
        }
        other => panic!("{other:?}"),
    }

    let (mut job, _) = SddmJob::start("pic.png", &config()).unwrap();
    job.advance(SddmEvent::Status(Ok(true)));
    job.advance(SddmEvent::Status(Ok(true)));
    job.advance(SddmEvent::User(Ok("u".to_string())));
    match job.advance(SddmEvent::Status(Ok(false))) {
        SddmStep::Failed(f) => assert_eq!(f.message, "Failed to set ownership on the image in the SDDM theme directory"),
        other => panic!("{other:?}"),
    }

    let (mut job, _) = SddmJob::start("pic.png", &config()).unwrap();
    job.advance(SddmEvent::Status(Ok(true)));
    job.advance(SddmEvent::Status(Ok(true)));
    job.advance(SddmEvent::User(Ok("u".to_string())));
    job.advance(SddmEvent::Status(Ok(true)));
    match job.advance(SddmEvent::Conf(Err("missing".to_string()))) {
        SddmStep::Failed(f) => {
            assert_eq!(f.message, "Failed to read theme.conf at /usr/share/sddm/themes/t/theme.conf - ensure SDDM theme is installed");
            assert_eq!(f.cause.as_deref(), Some("missing"));
        }
        other => panic!("{other:?}"),
    }
    assert!(!job.accepts(&SddmEvent::Status(Ok(true))));
}

#[test]
fn sddm_job_needs_file_name() {
    match SddmJob::start("/", &config()) {
        Err(f) => assert_eq!(f.message, "Failed to get image filename"),
        Ok(_) => panic!("started"),
    }
}

#[test]
fn sddm_copy_lands_under_conf_name() {
    for img in ["/w/pic.png", "pic.png", "/w/sub/.x.jpg", "a/b.png/"] {
        let (job, _) = SddmJob::start(img, &config()).unwrap();
        let dest_name = std::path::Path::new(&job.dest).file_name().unwrap().to_str().unwrap().to_string();
        assert_eq!(dest_name, job.file_name);
    }
}

#[test]
fn rewritten_conf_points_at_image() {
    for conf in ["", "a\r\nb", "background=1\n Background=2\n", "x\n\n", "background=x\r"] {
        let out = rewrite_theme_conf(conf, "img.png");
        let bg: Vec<&str> = out
            .lines()
            .filter(|l| l.trim_start().starts_with("background=") || l.trim_start().starts_with("Background="))
            .collect();
        assert!(!bg.is_empty());
        assert!(bg.iter().all(|l| *l == "background=Backgrounds/img.png"), "{conf:?}");
    }
}

#[test]
fn rewriting_twice_changes_nothing() {
    for conf in ["", "[General]\nbackground=old.png\nfont=Sans", "a\n  Background=x\nb", "x\n\ny"] {
        let once = rewrite_theme_conf(conf, "img.png");
        assert_eq!(rewrite_theme_conf(&once, "img.png"), once, "{conf:?}");
    }
}
