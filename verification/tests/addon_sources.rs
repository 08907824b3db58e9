use reforger_language_server::addon_sources::{
    addon_project_identity, extract_project_property, locate_virtual_source, record_addon_guid, revision_key,
    virtual_source_uri, BASE_GAME_GUID,
    VIRTUAL_SOURCE_SCHEME,
};
use reforger_language_server::addon_sources::{
    collect_addon_manifest, next_project_to_read, publication_reusable, InventoryAddonEntry,
};

#[test]
fn virtual_source_uri_preserves_the_addon_and_logical_path() {
    assert_eq!(
        virtual_source_uri(BASE_GAME_GUID, "abc123", "scripts/Game/My File.c").unwrap(),
        "reforger-pak://58D0FB3206B6F859/abc123/scripts/Game/My%20File.c"
    );
}

#[test]
fn revision_keys_normalize_the_case_of_guid_and_revision() {
    assert_eq!(revision_key("58d0fb32", "ABCdef"), "58D0FB32/abcdef");
    assert_eq!(revision_key("", ""), "/");
    assert_eq!(revision_key("ä-x", "Ö-Y"), "ä-X/Ö-y");
}

#[test]
fn locates_a_virtual_source_from_its_uri() {
    let uri = virtual_source_uri(BASE_GAME_GUID, "abc123", "scripts/Game/My File.c").unwrap();
    let location = locate_virtual_source(&uri).unwrap();
    assert_eq!(location.guid, BASE_GAME_GUID);
    assert_eq!(location.revision, "abc123");
    assert_eq!(location.logical_path, "scripts/Game/My%20File.c");
    assert_eq!(location.canonical_uri, uri);
    assert_eq!(location.revision_key, "58D0FB3206B6F859/abc123");

    // Clients may lower-case the authority; the GUID is restored to upper case.
    let lowered = locate_virtual_source("reforger-pak://58d0fb3206b6f859/abc123/scripts/A.c").unwrap();
    assert_eq!(lowered.guid, BASE_GAME_GUID);
    assert_eq!(lowered.canonical_uri, "reforger-pak://58D0FB3206B6F859/abc123/scripts/A.c");
}

#[test]
fn rejects_malformed_virtual_source_uris() {
    assert!(locate_virtual_source("not a uri").unwrap_err().starts_with("Invalid pack source URI: "));
    assert_eq!(
        locate_virtual_source("file:///tmp/a.c").unwrap_err(),
        "Unsupported source URI scheme 'file'"
    );
    assert_eq!(locate_virtual_source("reforger-pak:/abc/a.c").unwrap_err(), "Pack source URI has no add-on GUID");
    assert_eq!(locate_virtual_source("reforger-pak://GUID/").unwrap_err(), "Pack source URI has no revision");
    assert_eq!(locate_virtual_source("reforger-pak://GUID/rev").unwrap_err(), "Pack source URI has no logical path");
    assert_eq!(locate_virtual_source("reforger-pak://GUID/rev/").unwrap_err(), "Pack source URI has no logical path");
    assert_eq!(VIRTUAL_SOURCE_SCHEME, "reforger-pak");
}

#[test]
fn reads_quoted_project_properties() {
    let project = "GameProject {\r\n ID \"MyAddon\"\r\n GUID : \"59A1B2C3D4E5F607\"\n TITLE\"NoSpace\"\n}\n";
    assert_eq!(extract_project_property(project, "ID").as_deref(), Some("MyAddon"));
    assert_eq!(extract_project_property(project, "GUID").as_deref(), Some("59A1B2C3D4E5F607"));
    assert_eq!(extract_project_property(project, "TITLE"), None);
    assert_eq!(extract_project_property(project, "Missing"), None);
    assert_eq!(extract_project_property("ID \"\"\nID \"second\"", "ID").as_deref(), Some("second"));
    assert_eq!(extract_project_property("IDENT \"x\"", "ID"), None);
    assert_eq!(extract_project_property("ID: \"unterminated", "ID"), None);
    assert_eq!(extract_project_property("", "ID"), None);
}

#[test]
fn addon_identity_reads_guid_and_display_name() {
    let project = "GameProject {\n ID \"MyMod\"\n GUID \"58d0fb3206b6f859\"\n TITLE \"My Mod\"\n}\n";
    assert_eq!(
        addon_project_identity(project, "C:/addons/MyMod/addon.gproj", "MyMod"),
        Ok(("58D0FB3206B6F859".to_string(), "MyMod".to_string()))
    );
    let titled = "GameProject {\n GUID \"0123456789ABCDEF\"\n TITLE \"Titled\"\n}\n";
    assert_eq!(
        addon_project_identity(titled, "p.gproj", "Folder"),
        Ok(("0123456789ABCDEF".to_string(), "Titled".to_string()))
    );
    let bare = "GameProject {\n GUID: \"0123456789ABCDEF\"\n}\n";
    assert_eq!(
        addon_project_identity(bare, "p.gproj", "Folder"),
        Ok(("0123456789ABCDEF".to_string(), "Folder".to_string()))
    );
}

#[test]
fn addon_identity_refuses_missing_or_malformed_guids() {
    assert_eq!(
        addon_project_identity("GameProject {\n ID \"X\"\n}\n", "p.gproj", "X"),
        Err("Add-on project has no GUID: p.gproj".to_string())
    );
    assert_eq!(
        addon_project_identity("GUID \"12345\"\n", "p.gproj", "X"),
        Err("Invalid add-on GUID '12345': p.gproj".to_string())
    );
    assert_eq!(
        addon_project_identity("GUID \"0123456789ABCDEG\"\n", "p.gproj", "X"),
        Err("Invalid add-on GUID '0123456789ABCDEG': p.gproj".to_string())
    );
}

#[test]
fn repeated_addon_guids_are_refused() {
    let mut identities = Vec::new();
    assert_eq!(record_addon_guid(&mut identities, "0123456789ABCDEF", "C:/a"), Ok(()));
    assert_eq!(record_addon_guid(&mut identities, "58D0FB3206B6F859", "C:/b"), Ok(()));
    assert_eq!(
        record_addon_guid(&mut identities, "0123456789ABCDEF", "C:/c"),
        Err("Duplicate add-on GUID 0123456789ABCDEF: C:/a and C:/c".to_string())
    );
    assert_eq!(identities.len(), 2);
}

fn inventory_addon(path: &str, root_kind: &str, project_file: Option<&str>) -> InventoryAddonEntry {
    InventoryAddonEntry {
        path: path.to_string(),
        directory_name: path.rsplit('/').next().unwrap().to_string(),
        root_kind: root_kind.to_string(),
        project_file: project_file.map(|p| p.to_string()),
    }
}

#[test]
fn publication_passes_over_the_base_game_and_addons_without_projects() {
    let addons = vec![
        inventory_addon("C:/game/ArmaReforger", "base-game", Some("C:/game/ArmaReforger/addon.gproj")),
        inventory_addon("C:/workshop/NoProject", "workshop", None),
        inventory_addon("C:/addons/Local", "local", Some("C:/addons/Local/addon.gproj")),
    ];
    assert_eq!(next_project_to_read(&addons, 0), Some(2));
    assert_eq!(next_project_to_read(&addons, 2), Some(2));
    assert_eq!(next_project_to_read(&addons, 3), None);
    assert_eq!(next_project_to_read(&addons[..2].to_vec(), 0), None);
}

#[test]
fn collected_manifests_refuse_a_guid_met_twice() {
    let first = inventory_addon("C:/addons/First", "local", Some("C:/addons/First/addon.gproj"));
    let second = inventory_addon("C:/addons/Second", "local", Some("C:/addons/Second/addon.gproj"));
    let project = "GameProject {\n ID \"First\"\n GUID \"0123456789abcdef\"\n}\n";
    let mut identities = Vec::new();
    assert_eq!(
        collect_addon_manifest(&mut identities, &first, project),
        Ok(("0123456789ABCDEF".to_string(), "First".to_string()))
    );
    assert_eq!(identities.len(), 1);
    assert_eq!(
        collect_addon_manifest(&mut identities, &second, project),
        Err("Duplicate add-on GUID 0123456789ABCDEF: C:/addons/First and C:/addons/Second".to_string())
    );
    assert_eq!(identities.len(), 1);
    assert_eq!(
        collect_addon_manifest(&mut identities, &second, "GameProject {\n}\n"),
        Err("Add-on project has no GUID: C:/addons/Second/addon.gproj".to_string())
    );
}

#[test]
fn stored_publication_is_reused_only_when_current_and_unchanged() {
    let stored = Some(("reforger-addon-inventory-publication-v1".to_string(), "rev1".to_string()));
    assert!(publication_reusable(&stored, "rev1", &vec![true, true]));
    assert!(publication_reusable(&stored, "rev1", &Vec::new()));
    assert!(!publication_reusable(&stored, "rev2", &vec![true]));
    assert!(!publication_reusable(&stored, "rev1", &vec![true, false]));
    assert!(!publication_reusable(&None, "rev1", &vec![true]));
    let old_schema = Some(("reforger-addon-inventory-publication-v0".to_string(), "rev1".to_string()));
    assert!(!publication_reusable(&old_schema, "rev1", &vec![true]));
}
