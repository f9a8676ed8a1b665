use otui_core::OtuiService;
use otui_core::lang_api::LanguageService;

#[test]
fn service_reports_its_language_id() {
    let svc = OtuiService::new();
    assert_eq!(svc.language_id(), "otui");
}

#[test]
fn clean_source_produces_no_diagnostics() {
    let svc = OtuiService::new();
    assert!(
        svc.diagnostics("MainWindow < UIWindow\n  id: main\n")
            .is_empty()
    );
}

#[test]
fn service_surfaces_parse_level_diagnostics() {
    let svc = OtuiService::new();
    let diags = svc.diagnostics("Panel\n\tid: main\n");
    assert_eq!(diags.len(), 1);
    assert_eq!(diags[0].code, "tab-indentation");
}
