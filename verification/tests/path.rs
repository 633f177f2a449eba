use std::borrow::Cow;
use project::Path;
use serde::de::Error as _;
#[test]
fn test_valid_paths() {
    assert!(Path::new("/part".to_string()).is_ok());
    assert!(Path::new("/assemblies and drawings/drawing".to_string()).is_ok());
    assert!(Path::new("/parts/screws\\/bolts/bolt1".to_string()).is_ok());
    assert!(Path::new("/folder1/folder2/file\\/withslash".to_string()).is_ok());
    assert!(Path::new("/folder1/folder2/file".to_string()).is_ok());
    assert!(Path::new("/filewith\\/slashes\\\\".to_string()).is_ok());
    assert!(Path::new("/😐/🫢".to_string()).is_ok());
    assert!(Path::new("/💯\\//🖤".to_string()).is_ok());
}

#[test]
fn test_invalid_paths() {
    assert!(Path::new("part".to_string()).is_err());
    assert!(Path::new("/parts/".to_string()).is_err());
    assert!(Path::new("//part".to_string()).is_err());
    assert!(Path::new("/part/".to_string()).is_err());
    assert!(Path::new("/part\\".to_string()).is_err());
    assert!(Path::new("/".to_string()).is_err());
    assert!(Path::new("\\/".to_string()).is_err());
    assert!(Path::new("/doc\\\\/".to_string()).is_err());
    assert!(Path::new("/folder \\1/doc".to_string()).is_err());
    assert!(Path::new("/\\/\\\\/".to_string()).is_err());
    assert!(Path::new("/\\😐/🫢".to_string()).is_err());
}

#[test]
fn test_get_name_escaped() {
    assert_eq!(
        Path::new("/folder/part".to_string())
            .unwrap()
            .get_name_escaped(),
        "part"
    );
    assert_eq!(
        Path::new("/a/b/part".to_string())
            .unwrap()
            .get_name_escaped(),
        "part"
    );
    assert_eq!(
        Path::new("/folder/part (1) (2)".to_string())
            .unwrap()
            .get_name_escaped(),
        "part (1) (2)"
    );
    assert_eq!(
        Path::new("/folder/part (1)\\/ (2)".to_string())
            .unwrap()
            .get_name_escaped(),
        "part (1)\\/ (2)"
    );
    assert_eq!(
        Path::new("/folder/part (1)\\\\ (2)".to_string())
            .unwrap()
            .get_name_escaped(),
        "part (1)\\\\ (2)"
    );
    assert_eq!(
        Path::new("/folder/part (1)\\/ (2)\\/ (3)".to_string())
            .unwrap()
            .get_name_escaped(),
        "part (1)\\/ (2)\\/ (3)"
    );
    assert_eq!(
        Path::new("/folder/part (1)\\/ (2)\\\\ (3)".to_string())
            .unwrap()
            .get_name_escaped(),
        "part (1)\\/ (2)\\\\ (3)"
    );
    assert_eq!(
        Path::new("/part (1)\\/ (2)\\\\ (3)".to_string())
            .unwrap()
            .get_name_escaped(),
        "part (1)\\/ (2)\\\\ (3)"
    );
    assert_eq!(
        Path::new("/\\\\/part".to_string())
            .unwrap()
            .get_name_escaped(),
        "part"
    );
    assert_eq!(
        Path::new("/11\\//2\\/2".to_string())
            .unwrap()
            .get_name_escaped(),
        "2\\/2"
    );
    assert_eq!(
        Path::new("/💯💯\\//\\\\🖤\\/⩩".to_string())
            .unwrap()
            .get_name_escaped(),
        "\\\\🖤\\/⩩"
    );
}

#[test]
fn test_get_name() {
    assert_eq!(
        Path::new("/folder/part".to_string()).unwrap().get_name(),
        "part"
    );
    assert_eq!(
        Path::new("/a/b/part".to_string()).unwrap().get_name(),
        "part"
    );
    assert_eq!(
        Path::new("/folder/part (1) (2)".to_string())
            .unwrap()
            .get_name(),
        "part (1) (2)"
    );
    assert_eq!(
        Path::new("/folder/part (1)\\/ (2)".to_string())
            .unwrap()
            .get_name(),
        "part (1)/ (2)"
    );
    assert_eq!(
        Path::new("/folder/part (1)\\\\ (2)".to_string())
            .unwrap()
            .get_name(),
        "part (1)\\ (2)"
    );
    assert_eq!(
        Path::new("/folder/part (1)\\/ (2)\\/ (3)".to_string())
            .unwrap()
            .get_name(),
        "part (1)/ (2)/ (3)"
    );
    assert_eq!(
        Path::new("/folder/part (1)\\/ (2)\\\\ (3)".to_string())
            .unwrap()
            .get_name(),
        "part (1)/ (2)\\ (3)"
    );
    assert_eq!(
        Path::new("/part (1)\\/ (2)\\\\ (3)".to_string())
            .unwrap()
            .get_name(),
        "part (1)/ (2)\\ (3)"
    );
    assert_eq!(
        Path::new("/\\\\/part".to_string()).unwrap().get_name(),
        "part"
    );
    assert_eq!(
        Path::new("/11\\//2\\/2".to_string()).unwrap().get_name(),
        "2/2"
    );
    assert_eq!(
        Path::new("/💯💯\\//\\\\🖤\\/⩩".to_string())
            .unwrap()
            .get_name(),
        "\\🖤/⩩"
    );
}

#[test]
fn test_parent_folders_unescaped() {
    let path = Path::new("/folder 1/folder 2/doc".to_string()).unwrap();
    let mut f = path.ancestors_unescaped();
    assert_eq!(f.next().unwrap(), "folder 1");
    assert_eq!(f.next().unwrap(), "folder 2");
    assert!(f.next().is_none());

    let path = Path::new("/folder \\\\1/folder 2/doc".to_string()).unwrap();
    let mut f = path.ancestors_unescaped();
    assert_eq!(f.next().unwrap(), "folder \\\\1");
    assert_eq!(f.next().unwrap(), "folder 2");
    assert!(f.next().is_none());

    let path = Path::new("/folder 1/folder \\/2/doc".to_string()).unwrap();
    let mut f = path.ancestors_unescaped();
    assert_eq!(f.next().unwrap(), "folder 1");
    assert_eq!(f.next().unwrap(), "folder \\/2");
    assert!(f.next().is_none());

    let path = Path::new("/folder 1 \\\\/folder 2 \\/\\\\/doc".to_string()).unwrap();
    let mut f = path.ancestors_unescaped();
    assert_eq!(f.next().unwrap(), "folder 1 \\\\");
    assert_eq!(f.next().unwrap(), "folder 2 \\/\\\\");
    assert!(f.next().is_none());

    let path = Path::new("/💯💯\\//漢/字\\\\🖤\\/⩩/doc".to_string()).unwrap();
    let mut f = path.ancestors_unescaped();
    assert_eq!(f.next().unwrap(), "💯💯\\/");
    assert_eq!(f.next().unwrap(), "漢");
    assert_eq!(f.next().unwrap(), "字\\\\🖤\\/⩩");
    assert!(f.next().is_none());
}

#[test]
fn test_parent_folders() {
    let path = Path::new("/folder 1/folder 2/doc".to_string()).unwrap();
    let mut f = path.ancestors();
    assert_eq!(f.next().unwrap(), "folder 1");
    assert_eq!(f.next().unwrap(), "folder 2");
    assert!(f.next().is_none());

    let path = Path::new("/folder \\\\1/folder 2/doc".to_string()).unwrap();
    let mut f = path.ancestors();
    assert_eq!(f.next().unwrap(), "folder \\1");
    assert_eq!(f.next().unwrap(), "folder 2");
    assert!(f.next().is_none());

    let path = Path::new("/folder 1/folder \\/2/doc".to_string()).unwrap();
    let mut f = path.ancestors();
    assert_eq!(f.next().unwrap(), "folder 1");
    assert_eq!(f.next().unwrap(), "folder /2");
    assert!(f.next().is_none());

    let path = Path::new("/folder 1 \\\\/folder 2 \\/\\\\/doc".to_string()).unwrap();
    let mut f = path.ancestors();
    assert_eq!(f.next().unwrap(), "folder 1 \\");
    assert_eq!(f.next().unwrap(), "folder 2 /\\");
    assert!(f.next().is_none());

    let path = Path::new("/💯💯\\//漢/字\\\\🖤\\/⩩/doc".to_string()).unwrap();
    let mut f = path.ancestors();
    assert_eq!(f.next().unwrap(), "💯💯/");
    assert_eq!(f.next().unwrap(), "漢");
    assert_eq!(f.next().unwrap(), "字\\🖤/⩩");
    assert!(f.next().is_none());
}

/// `Path` written and read through serde as a plain string, the way the
/// application's serde copy of the type does it.
#[derive(Debug, PartialEq)]
struct SerdePath(Path);

impl serde::Serialize for SerdePath {
    fn serialize<S: serde::Serializer>(&self, serializer: S) -> Result<S::Ok, S::Error> {
        serializer.serialize_str(self.0.as_str())
    }
}

impl<'de> serde::Deserialize<'de> for SerdePath {
    fn deserialize<D: serde::Deserializer<'de>>(deserializer: D) -> Result<Self, D::Error> {
        let text = String::deserialize(deserializer)?;
        Path::new(text)
            .map(SerdePath)
            .map_err(|_| D::Error::custom("invalid path"))
    }
}

#[test]
fn test_serialization_deserialization() {
    let path = SerdePath(Path::new("/parts/漢字/screws\\/bolts/bolt1".to_string()).unwrap());
    let serialized = serde_json::to_string(&path).unwrap();
    let deserialized: SerdePath = serde_json::from_str(&serialized).unwrap();
    assert_eq!(path, deserialized);

    let path2 = SerdePath(Path::new("/part".to_string()).unwrap());
    let serialized = serde_json::to_string(&path2).unwrap();
    let deserialized: SerdePath = serde_json::from_str(&serialized).unwrap();
    assert_eq!(path2, deserialized);

    assert!(serde_json::from_str::<SerdePath>("invalid path").is_err());
}

#[test]
fn test_display() {
    let path = Path::new("/parts/screws\\/bolts/bolt1".to_string()).unwrap();
    assert_eq!(path.to_string(), "/parts/screws\\/bolts/bolt1");
}

#[test]
fn test_increment_name_suffix() {
    let path = Path::new("/part".to_string()).unwrap();
    assert_eq!(
        path.increment_name_suffix(),
        Path::new("/part (2)".to_string()).unwrap()
    );

    let path = Path::new("/folder/part (2)".to_string()).unwrap();
    assert_eq!(
        path.increment_name_suffix(),
        Path::new("/folder/part (3)".to_string()).unwrap()
    );

    let path = Path::new("/folder/part (0)".to_string()).unwrap();
    assert_eq!(
        path.increment_name_suffix(),
        Path::new("/folder/part (1)".to_string()).unwrap()
    );

    let path = Path::new("/folder/part (-1)".to_string()).unwrap();
    assert_eq!(
        path.increment_name_suffix(),
        Path::new("/folder/part (-1) (2)".to_string()).unwrap()
    );

    let path = Path::new("/folder/subfolder/part (52)".to_string()).unwrap();
    assert_eq!(
        path.increment_name_suffix(),
        Path::new("/folder/subfolder/part (53)".to_string()).unwrap()
    );

    let path = Path::new("/file\\/withslash (12)".to_string()).unwrap();
    assert_eq!(
        path.increment_name_suffix(),
        Path::new("/file\\/withslash (13)".to_string()).unwrap()
    );

    let path = Path::new("/file\\/withslash".to_string()).unwrap();
    assert_eq!(
        path.increment_name_suffix(),
        Path::new("/file\\/withslash (2)".to_string()).unwrap()
    );

    let path = Path::new("/folder (3)/part (4) (5)".to_string()).unwrap();
    assert_eq!(
        path.increment_name_suffix(),
        Path::new("/folder (3)/part (4) (6)".to_string()).unwrap()
    );

    let path = Path::new("/folder (2)/part".to_string()).unwrap();
    assert_eq!(
        path.increment_name_suffix(),
        Path::new("/folder (2)/part (2)".to_string()).unwrap()
    );

    let path = Path::new("/folder (2)/part".to_string()).unwrap();
    assert_eq!(
        path.increment_name_suffix(),
        Path::new("/folder (2)/part (2)".to_string()).unwrap()
    );

    let path = Path::new("/part(3)".to_string()).unwrap();
    assert_eq!(
        path.increment_name_suffix(),
        Path::new("/part(3) (2)".to_string()).unwrap()
    );
}

fn folders(path: &Path) -> Vec<String> {
    let mut it = path.ancestors_unescaped();
    let mut out = Vec::new();
    while let Some(f) = it.next() {
        out.push(f.to_string());
    }
    out
}

#[test]
fn folders_and_name_rejoin_into_the_path() {
    let path = Path::new("/parts/screws\\/bolts/bolt\\\\1".to_string()).unwrap();
    let mut parts = folders(&path);
    assert_eq!(parts, vec!["parts".to_string(), "screws\\/bolts".to_string()]);
    parts.push(path.get_name_escaped().to_string());
    assert_eq!(format!("/{}", parts.join("/")), path.as_str());
}

#[test]
fn increment_keeps_the_folders() {
    let path = Path::new("/a/b\\/c/part (9)".to_string()).unwrap();
    let next = path.increment_name_suffix();
    assert_eq!(next.as_str(), "/a/b\\/c/part (10)");
    assert_eq!(folders(&next), folders(&path));
    assert_ne!(next.as_str(), path.as_str());
}

#[test]
fn escaping_the_unescaped_name_gives_it_back() {
    let path = Path::new("/f/a\\/b\\\\c".to_string()).unwrap();
    let name = path.get_name_escaped();
    assert_eq!(Path::escape(&Path::unescape(name)), name);
}

#[test]
fn an_escaped_name_is_a_one_component_path() {
    let name = "a/b\\c";
    let path = Path::new(format!("/{}", Path::escape(name))).unwrap();
    assert!(folders(&path).is_empty());
    assert_eq!(path.get_name_escaped(), Path::escape(name));
    assert_eq!(path.get_name(), name);
}

#[test]
fn ancestors_are_the_unescaped_folders() {
    let path = Path::new("/a\\/b/c\\\\d/name".to_string()).unwrap();
    let mut it = path.ancestors();
    let mut unescaped = Vec::new();
    while let Some(f) = it.next() {
        unescaped.push(f.into_owned());
    }
    let expected: Vec<String> = folders(&path).iter().map(|f| Path::unescape(f).into_owned()).collect();
    assert_eq!(unescaped, expected);
    assert_eq!(unescaped, vec!["a/b".to_string(), "c\\d".to_string()]);
}

#[test]
fn escaping_borrows_when_nothing_changes() {
    assert!(matches!(Path::unescape("plain"), Cow::Borrowed("plain")));
    assert!(matches!(Path::unescape("a\\/b"), Cow::Owned(_)));
    assert_eq!(Path::unescape("a\\/b"), "a/b");
    assert!(matches!(Path::escape("plain"), Cow::Borrowed("plain")));
    assert!(matches!(Path::escape("a/b"), Cow::Owned(_)));
    assert_eq!(Path::escape("a/b"), "a\\/b");
    let path = Path::new("/f/name".to_string()).unwrap();
    assert!(matches!(path.get_name(), Cow::Borrowed("name")));
    let path = Path::new("/f/na\\/me".to_string()).unwrap();
    assert!(matches!(path.get_name(), Cow::Owned(_)));
    assert_eq!(path.get_name(), "na/me");
}
