use disk::path::{Component, Path, PathBuf};

// Every text of up to `max` letters over a small alphabet that brings out
// all the cases of reading a path.
fn texts(max: usize) -> Vec<String> {
    let letters = ['/', '.', 'a', 'b'];
    let mut all = vec![String::new()];
    let mut last = vec![String::new()];
    for _ in 0..max {
        let mut next = Vec::new();
        for t in &last {
            for c in letters {
                let mut longer = t.clone();
                longer.push(c);
                next.push(longer);
            }
        }
        all.extend(next.iter().cloned());
        last = next;
    }
    all
}

fn ours(c: Component) -> String {
    match c {
        Component::Prefix(_) => "prefix".to_string(),
        Component::RootDir => "<root>".to_string(),
        Component::CurDir => "<cur>".to_string(),
        Component::ParentDir => "<parent>".to_string(),
        Component::Normal(n) => String::from_utf8(n.to_vec()).unwrap(),
    }
}

fn theirs(c: std::path::Component) -> String {
    match c {
        std::path::Component::Prefix(_) => "prefix".to_string(),
        std::path::Component::RootDir => "<root>".to_string(),
        std::path::Component::CurDir => "<cur>".to_string(),
        std::path::Component::ParentDir => "<parent>".to_string(),
        std::path::Component::Normal(n) => n.to_str().unwrap().to_string(),
    }
}

fn text(p: &std::path::Path) -> Vec<u8> {
    p.to_str().unwrap().as_bytes().to_vec()
}

#[test]
fn components_agree_with_the_standard_library() {
    for t in texts(7) {
        let here = Path::new(&t);
        let there = std::path::Path::new(&t);
        let mut from_front = Vec::new();
        let mut it = here.components();
        while let Some(c) = it.next() {
            from_front.push(ours(c));
        }
        let want: Vec<String> = there.components().map(theirs).collect();
        assert_eq!(from_front, want, "{:?}", t);
        let mut from_back = Vec::new();
        let mut it = here.components();
        while let Some(c) = it.next_back() {
            from_back.push(ours(c));
        }
        from_back.reverse();
        assert_eq!(from_back, want, "{:?}", t);
        // one from the back, then all from the front
        let mut it = here.components();
        let mut their_it = there.components();
        assert_eq!(it.next_back().map(ours), their_it.next_back().map(theirs), "{:?}", t);
        assert_eq!(it.as_path().as_os_str(), text(their_it.as_path()), "{:?}", t);
        loop {
            let a = it.next().map(ours);
            let b = their_it.next().map(theirs);
            assert_eq!(a, b, "{:?}", t);
            assert_eq!(it.as_path().as_os_str(), text(their_it.as_path()), "{:?}", t);
            if a.is_none() {
                break;
            }
        }
    }
}

#[test]
fn parts_agree_with_the_standard_library() {
    for t in texts(7) {
        let here = Path::new(&t);
        let there = std::path::Path::new(&t);
        assert_eq!(
            here.parent().map(|p| p.as_os_str().to_vec()),
            there.parent().map(text),
            "{:?}",
            t
        );
        assert_eq!(here.file_name().map(|n| n.to_vec()), there.file_name().map(|n| n.to_str().unwrap().as_bytes().to_vec()), "{:?}", t);
        assert_eq!(here.file_stem().map(|n| n.to_vec()), there.file_stem().map(|n| n.to_str().unwrap().as_bytes().to_vec()), "{:?}", t);
        assert_eq!(here.extension().map(|n| n.to_vec()), there.extension().map(|n| n.to_str().unwrap().as_bytes().to_vec()), "{:?}", t);
        assert_eq!(here.has_root(), there.has_root(), "{:?}", t);
        assert_eq!(here.is_absolute(), there.is_absolute(), "{:?}", t);
        assert_eq!(here.is_relative(), there.is_relative(), "{:?}", t);
        let mut popped = here.to_path_buf();
        let mut their_popped = there.to_path_buf();
        assert_eq!(popped.pop(), their_popped.pop(), "{:?}", t);
        assert_eq!(popped.into_os_string(), text(&their_popped), "{:?}", t);
    }
}

#[test]
fn pairs_agree_with_the_standard_library() {
    let all = texts(4);
    for a in &all {
        let here = Path::new(a);
        let there = std::path::Path::new(a);
        for b in &all {
            let other = Path::new(b);
            let their_other = std::path::Path::new(b);
            assert_eq!(here.starts_with(other), there.starts_with(their_other), "{:?} {:?}", a, b);
            assert_eq!(here.ends_with(other), there.ends_with(their_other), "{:?} {:?}", a, b);
            assert_eq!(here == other, there == their_other, "{:?} {:?}", a, b);
            assert_eq!(
                here.relative_from(other).map(|p| p.as_os_str().to_vec()),
                there.strip_prefix(their_other).ok().map(text),
                "{:?} {:?}",
                a,
                b
            );
            assert_eq!(
                here.join(other).into_os_string(),
                text(&there.join(their_other)),
                "{:?} {:?}",
                a,
                b
            );
            assert_eq!(
                here.to_path_buf() == PathBuf::from_str(b),
                there.to_path_buf() == their_other.to_path_buf(),
                "{:?} {:?}",
                a,
                b
            );
        }
    }
}

#[test]
fn names_agree_with_the_standard_library() {
    let all = texts(4);
    for a in texts(5) {
        let here = Path::new(&a);
        let there = std::path::Path::new(&a);
        for b in all.iter().filter(|b| !b.contains('/')) {
            // a new extension is the stem with the extension as a new file name
            let renamed = match there.file_stem() {
                None => there.to_path_buf(),
                Some(stem) => {
                    let mut name = stem.to_str().unwrap().to_string();
                    if !b.is_empty() {
                        name.push('.');
                        name.push_str(b);
                    }
                    there.with_file_name(name)
                }
            };
            assert_eq!(
                here.with_extension(b.as_bytes()).into_os_string(),
                text(&renamed),
                "{:?} {:?}",
                a,
                b
            );
            assert_eq!(
                here.with_file_name(b.as_bytes()).into_os_string(),
                text(&there.with_file_name(b)),
                "{:?} {:?}",
                a,
                b
            );
        }
    }
}
