use devset_core::name::ProfileName;
use devset_core::part::Scope;
use devset_core::path::RelPath;
use devset_core::profile::Policy;
use devset_core::digest::Digest;
use devset_core::gate::Reason;
use devset_core::profile::{FileSpec, Meta, When};
use devset_core::resolve::{Claim, Layer, LayerFile, providers, share, stale_override};
use devset_core::settings::MergeSpec;
use devset_core::source::Source;
use devset_core::target::Override;
use devset_core::errors::ProfileError;

fn claim(layer: &str, scope: Scope, policy: Policy, starts: bool) -> Claim {
    Claim { layer: ProfileName::new(layer).unwrap(), scope, policy, starts }
}

#[test]
fn layers_share_a_file_by_parts() {
    let path = RelPath::new("Cargo.toml").unwrap();
    assert!(share(&path, &vec![claim("a", Scope::File, Policy::Owned, false)]).is_ok(), "one provider");
    let parts = vec![claim("a", Scope::Keys, Policy::Owned, false), claim("b", Scope::Keys, Policy::Merge, false)];
    assert!(share(&path, &parts).is_ok(), "parts in one scope");
    let starter = vec![claim("a", Scope::File, Policy::Once, true), claim("b", Scope::Keys, Policy::Owned, false)];
    assert!(share(&path, &starter).is_ok(), "a once file starts what others own parts of");
    let wholes = vec![claim("a", Scope::File, Policy::Owned, false), claim("b", Scope::File, Policy::Owned, false)];
    assert!(matches!(share(&path, &wholes), Err(ProfileError::Collision { .. })));
    let mixed = vec![claim("a", Scope::Keys, Policy::Owned, false), claim("b", Scope::Block, Policy::Owned, false)];
    assert!(matches!(share(&path, &mixed), Err(ProfileError::Scopes { .. })));
    let owned = vec![claim("a", Scope::File, Policy::Owned, false), claim("b", Scope::Keys, Policy::Owned, false)];
    assert!(matches!(share(&path, &owned), Err(ProfileError::Scopes { .. })));
    let two = vec![claim("a", Scope::Keys, Policy::Owned, true), claim("b", Scope::Keys, Policy::Owned, true)];
    assert!(matches!(share(&path, &two), Err(ProfileError::Starters { .. })));
}

fn file(path: &str, gated: bool) -> (RelPath, LayerFile) {
    let spec = FileSpec {
        policy: None,
        validate: None,
        template: false,
        scope: Scope::File,
        comment: None,
        executable: false,
        scaffold: None,
        starter: None,
        when: When::default(),
    };
    let gated = gated.then(|| Reason::Profile(ProfileName::new("off").unwrap()));
    (RelPath::new(path).unwrap(), LayerFile { written: RelPath::new(path).unwrap(), spec, exists: Vec::new(), gated })
}

fn layer(name: &str, files: Vec<(RelPath, LayerFile)>) -> Layer {
    Layer {
        source: Source::Dir("p".into()),
        source_name: None,
        dir: name.to_owned(),
        meta: Meta { name: ProfileName::new(name).unwrap(), version: None, description: None, devset: None },
        merge: MergeSpec::default(),
        vars: Vec::new(),
        declared: Vec::new(),
        features: Vec::new(),
        required_by: Vec::new(),
        configured: true,
        rev: None,
        digest: Digest::of(name.as_bytes()),
        locked: None,
        scaffolds: Vec::new(),
        files,
    }
}

#[test]
fn each_path_has_one_provider_in_path_order() {
    let layers = vec![
        layer("a", vec![file("z.txt", false), file("gated.txt", true)]),
        layer("b", vec![file("m.txt", false)]),
    ];
    let got = providers(&layers, &Vec::new()).unwrap();
    let slots: Vec<(&str, usize)> = got.iter().map(|(slot, p)| (slot.path.as_str(), p.layer)).collect();
    assert_eq!(slots, [("m.txt", 1), ("z.txt", 0)], "a gated file is nobody's");
    let both = vec![layer("a", vec![file("x.txt", false)]), layer("b", vec![file("x.txt", false)])];
    let clash = providers(&both, &Vec::new());
    assert!(matches!(clash, Err(ProfileError::Collision { .. })), "{clash:?}");
}

#[test]
fn paths_one_file_apart_on_a_folding_filesystem_collide() {
    let layers = vec![layer("a", vec![file("README.md", false)]), layer("b", vec![file("readme.md", false)])];
    let clash = providers(&layers, &Vec::new());
    let Err(ProfileError::FoldCollision { first, second }) = clash else { panic!("{clash:?}") };
    assert_eq!((first.as_str(), second.as_str()), ("README.md", "readme.md"));
}

#[test]
fn an_override_of_no_layer_s_path_is_stale() {
    let layers = vec![layer("a", vec![file("b.txt", true), file("a.txt", false)])];
    let over = |p: &str| (RelPath::new(p).unwrap(), Override::default());
    assert!(stale_override(&layers, &vec![over("a.txt"), over("b.txt")]).is_none(), "a gated file is still listed");
    let stale = stale_override(&layers, &vec![over("a.txt"), over("c.txt")]);
    let Some(e) = stale else { panic!("stale") };
    assert_eq!(e.to_string(), ".devset/config.toml overrides c.txt, which no layer provides");
    let devset_core::errors::TargetError::StaleOverride { provided, .. } = e else { panic!() };
    let provided: Vec<&str> = provided.iter().map(RelPath::as_str).collect();
    assert_eq!(provided, ["a.txt", "b.txt"]);
}
