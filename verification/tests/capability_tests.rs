use fm_verified::capability::{
    capability_claims, capability_readme_supported_diagram_types_markdown, capability_readme_surface_markdown,
    capability_status_counts, documented_diagram_type_claims, documented_diagram_types, surface_capability_claims,
};
use fm_verified::taxonomy::{CapabilityStatus, DiagramType};

#[test]
fn supported_diagram_types_table_lists_each_documented_family() {
    let table = capability_readme_supported_diagram_types_markdown();
    let lines: Vec<&str> = table.lines().collect();
    assert_eq!(lines.len(), 2 + documented_diagram_types().len());
    assert_eq!(lines[0], "| Diagram Type | Runtime Status |");
    assert_eq!(lines[1], "|--------------|----------------|");
    assert_eq!(lines[2], "| `flowchart` | Implemented |");
    assert_eq!(lines[3], "| `sequence` | Partial |");
    assert!(!table.ends_with('\n'));
}

#[test]
fn surface_table_lists_only_surface_claims() {
    let table = capability_readme_surface_markdown();
    let lines: Vec<&str> = table.lines().collect();
    assert_eq!(lines[0], "| Surface | Status | Evidence |");
    assert_eq!(lines[1], "|---------|--------|----------|");
    assert_eq!(lines[2], "| CLI detect command | Implemented | 2 evidence refs |");
    let surface = surface_capability_claims().into_iter().filter(|c| c.category == "surface").count();
    assert_eq!(lines.len(), 2 + surface);
    assert!(!table.contains("Deterministic layout output"));
}

#[test]
fn claims_cover_documented_families_then_surfaces() {
    let claims = capability_claims();
    let documented = documented_diagram_type_claims();
    assert_eq!(claims.len(), documented.len() + surface_capability_claims().len());
    assert_eq!(claims[0].id, "diagram-type/flowchart");
    assert_eq!(claims[0].title, "Support flowchart diagrams");
    assert_eq!(claims[0].notes, vec!["README advertises this family; current code marks it as full capability".to_string()]);
    assert_eq!(claims[1].status, CapabilityStatus::Partial);
    assert_eq!(claims[documented.len()].id, "surface/cli-detect");
    assert!(documented_diagram_types().iter().all(|t| *t != DiagramType::Unknown));
}

#[test]
fn status_counts_are_listed_by_status_name() {
    let counts = capability_status_counts(&capability_claims());
    assert_eq!(
        counts,
        vec![("experimental".to_string(), 1), ("implemented".to_string(), 30), ("partial".to_string(), 4)]
    );
}
