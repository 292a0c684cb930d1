//! A deterministic net over the grammars and the readers: generated
//! manifest pairs go through the same report both surfaces use, and every
//! answer must be well formed and never a conflict made out of a grammar
//! the tool does not model.

use versions_le::heuristics::ManifestKind;
use versions_le::scan::{report_for, Document, Report};

const CODES: [&str; 6] = [
    "constraint-conflict",
    "disjoint-constraint",
    "floating-pin",
    "malformed-constraint",
    "msrv-mismatch",
    "prerelease-in-production",
];
const REASONS: [&str; 4] =
    ["ambiguous_version_string", "cross_ecosystem", "per_job_tool_version", "unknown_grammar"];
const CONFLICTS: [&str; 2] = ["constraint-conflict", "disjoint-constraint"];

/// xorshift64*, identical on every platform.
struct Seeded(u64);

impl Seeded {
    fn next(&mut self) -> u64 {
        let mut state = self.0;
        state ^= state >> 12;
        state ^= state << 25;
        state ^= state >> 27;
        self.0 = state;
        state.wrapping_mul(0x2545_f491_4f6c_dd1d)
    }

    fn below(&mut self, limit: usize) -> usize {
        let limit = u64::try_from(limit).unwrap_or(1).max(1);
        usize::try_from(self.next() % limit).unwrap_or(0)
    }

    fn pick<'a, T>(&mut self, from: &'a [T]) -> &'a T {
        &from[self.below(from.len())]
    }
}

fn toml_string(raw: &str) -> String {
    let mut out = String::with_capacity(raw.len() + 2);
    out.push('"');
    for character in raw.chars() {
        match character {
            '"' => out.push_str("\\\""),
            '\\' => out.push_str("\\\\"),
            '\n' => out.push_str("\\n"),
            '\r' => out.push_str("\\r"),
            '\t' => out.push_str("\\t"),
            other if (other as u32) < 0x20 => {
                out.push_str(&format!("\\u{:04X}", other as u32));
            }
            other => out.push(other),
        }
    }
    out.push('"');
    out
}

fn json_string(raw: &str) -> String {
    let mut out = String::from("\"");
    for character in raw.chars() {
        match character {
            '"' => out.push_str("\\\""),
            '\\' => out.push_str("\\\\"),
            other if (other as u32) < 0x20 => {
                out.push_str(&format!("\\u{:04x}", other as u32));
            }
            other => out.push(other),
        }
    }
    out.push('"');
    out
}

#[derive(Clone, Copy, PartialEq, Eq)]
enum Eco {
    Cargo,
    Npm,
    Python,
    Go,
    Ci,
}

impl Eco {
    fn kind(self) -> ManifestKind {
        match self {
            Self::Cargo => ManifestKind::CargoToml,
            Self::Npm => ManifestKind::PackageJson,
            Self::Python => ManifestKind::PyprojectToml,
            Self::Go => ManifestKind::GoMod,
            Self::Ci => ManifestKind::Workflow,
        }
    }

    fn file(self) -> &'static str {
        match self {
            Self::Cargo => "Cargo.toml",
            Self::Npm => "package.json",
            Self::Python => "pyproject.toml",
            Self::Go => "go.mod",
            Self::Ci => ".github/workflows/ci.yml",
        }
    }

    fn dependency(self) -> &'static str {
        match self {
            Self::Go => "github.com/x/pkg",
            Self::Ci => "node",
            _ => "pkg",
        }
    }

    fn document(self, constraint: &str) -> String {
        match self {
            Self::Cargo => format!("[dependencies]\npkg = {constraint}\n"),
            Self::Npm => format!("{{ \"dependencies\": {{ \"pkg\": {} }} }}", json_string(constraint)),
            Self::Python => format!(
                "[project]\ndependencies = [{}]\n",
                toml_string(&format!("pkg{constraint}"))
            ),
            Self::Go => format!("module example.com/a\n\nrequire github.com/x/pkg {constraint}\n"),
            Self::Ci => format!(
                "jobs:\n  test:\n    steps:\n      - uses: actions/setup-node@v4\n        with:\n          node-version: {}\n",
                constraint.replace(['\n', '\r'], " ")
            ),
        }
    }
}

const ECOSYSTEMS: [Eco; 5] = [Eco::Cargo, Eco::Npm, Eco::Python, Eco::Go, Eco::Ci];

fn unmodelled_pool(ecosystem: Eco) -> &'static [&'static str] {
    match ecosystem {
        Eco::Cargo => &[
            "{ workspace = true }",
            "{ path = \"../pkg\" }",
            "{ git = \"https://example.com/pkg.git\", branch = \"main\" }",
            "{ git = \"https://example.com/pkg.git\", rev = \"deadbeef\" }",
        ],
        Eco::Npm => &[
            "workspace:*",
            "workspace:^1.0.0",
            "npm:other@^1.0.0",
            "file:../local",
            "link:../local",
            "portal:../local",
            "catalog:default",
            "git+https://example.com/pkg.git",
            "git@example.com:owner/pkg.git",
            "github:owner/pkg",
            "owner/pkg",
            "https://example.com/pkg.tgz",
            "./local",
            "latest",
            "next",
        ],
        Eco::Python => &["~=1.4.2", "!=1.5.0", "===1.0", "==1.2.*", ">=1.0.post1", ">=1.0.dev1", ">=1.0+local"],
        Eco::Ci => &["latest", "stable", "nightly", "beta", "current", "lts/*"],
        Eco::Go => &[],
    }
}

fn modelled_pool(ecosystem: Eco) -> &'static [&'static str] {
    match ecosystem {
        Eco::Cargo => &[
            "\"1\"",
            "\"1.0.200\"",
            "\"^1.2.3\"",
            "\"~0.4\"",
            "\"=0.7.7\"",
            "\"0.7.7\"",
            "\">=1.0, <2.0\"",
            "\"*\"",
            "{ version = \"1.0.200\" }",
            "{ path = \"../pkg\", version = \"0.7.7\" }",
            "{ path = \"../pkg\", version = \"=0.7.7\" }",
        ],
        Eco::Npm => &["^1.0.0", "1.2.3", ">=1 <2", "1.x", "1.2.3 - 2.0.0", "^1.0.0 || ^2.0.0", "~2.3.0", "*", "2.0.0-rc.1"],
        Eco::Python => &[">=2.31", "==1.2", ">=1.0,<2.0", ">3.9", "<=2.0", ""],
        Eco::Go => &["v1.4.0", "v0.9.1", "v2.0.0+incompatible", "v1.0.0-rc.1"],
        Eco::Ci => &["20", "1.1.0", "^18", ">=18 <21", "v4", "22.1.0"],
    }
}

fn hostile(ecosystem: Eco, seeded: &mut Seeded) -> String {
    let bare = match seeded.below(18) {
        0 => format!("1.0.0-{}", vec!["rc.1"; 1 + seeded.below(400)].join(".")),
        1 => (0..=seeded.below(300)).fold(String::new(), |mut out, index| {
            if !out.is_empty() {
                out.push_str(" || ");
            }
            out.push_str(&format!(">={index}.0.0 <{}.0.0", index + 1));
            out
        }),
        2 => (0..=seeded.below(400)).fold(String::new(), |mut out, index| {
            if !out.is_empty() {
                out.push(' ');
            }
            out.push_str(&format!(">={index}.0.0 <9999.0.0"));
            out
        }),
        3 => "1.0.0-\u{3b1}\u{3b2}\u{3b3}".to_string(),
        4 => "\u{ff11}.\u{ff10}.\u{ff10}".to_string(),
        5 => "1.0.0-\u{1f389}".to_string(),
        6 => format!("{}1.0.0", "^".repeat(1 + seeded.below(60))),
        7 => "99999999999999999999.0.0".to_string(),
        8 => format!("18446744073709551615.{}.0", seeded.below(1000)),
        9 => format!("1.0.{}", "0".repeat(1 + seeded.below(5_000))),
        10 => (*seeded.pick(&["", "   ", "\t", "\u{feff}"])).to_string(),
        11 => (*seeded.pick(&["*", "x", "X", "1.x.3", "x.2.3"])).to_string(),
        12 => (*seeded.pick(&[">=", "<", "^", "~", "=", "||", " - "])).to_string(),
        13 => format!("1.2.3.4.5{}", ".6".repeat(seeded.below(20))),
        14 => format!("v{}V1.0.0", "v".repeat(seeded.below(10))),
        15 => format!("1.0.0+{}", "build.".repeat(1 + seeded.below(200))),
        16 => (*seeded.pick(&["\"", "\\", "'", "\u{0}", "a\u{0}b"])).to_string(),
        _ => (*seeded.pick(modelled_pool(ecosystem))).to_string(),
    };
    match ecosystem {
        Eco::Cargo if !bare.starts_with(['{', '"']) => toml_string(&bare),
        _ => bare,
    }
}

struct Case {
    name: String,
    documents: Vec<Document>,
    dependency: &'static str,
    refused: bool,
}

fn build(ecosystem: Eco, left: &str, right: &str, refused: bool, name: String) -> Case {
    let (a, b) = match ecosystem {
        Eco::Ci => (".github/workflows/a.yml".to_string(), ".github/workflows/b.yml".to_string()),
        _ => (format!("a/{}", ecosystem.file()), format!("b/{}", ecosystem.file())),
    };
    Case {
        name,
        documents: vec![
            Document { kind: ecosystem.kind(), label: a, content: ecosystem.document(left) },
            Document { kind: ecosystem.kind(), label: b, content: ecosystem.document(right) },
        ],
        dependency: ecosystem.dependency(),
        refused,
    }
}

fn check(case: &Case, report: &Report) {
    let name = &case.name;
    assert_eq!(report.schema, 1, "{name}");
    let supplied: Vec<&str> = case.documents.iter().map(|d| d.label.as_str()).collect();
    assert_eq!(report.manifests.len(), case.documents.len(), "{name}");
    for manifest in &report.manifests {
        assert!(supplied.contains(&manifest.path.as_str()), "{name}: {}", manifest.path);
    }
    assert_eq!(report.summary.findings, report.findings.len(), "{name}");
    assert_eq!(report.summary.refusals, report.refusals.len(), "{name}");
    for finding in &report.findings {
        assert!(CODES.contains(&finding.code.as_str()), "{name}: {}", finding.code);
        assert!(["error", "warning", "info"].contains(&finding.severity.as_str()), "{name}");
        for site in &finding.sites {
            assert!(supplied.contains(&site.file.as_str()), "{name}: {}", site.file);
        }
        if CONFLICTS.contains(&finding.code.as_str()) {
            let first = &finding.sites[0].constraint;
            assert!(
                finding.sites.iter().any(|s| &s.constraint != first),
                "{name}: {} on sites that all say {first:?}",
                finding.code
            );
        }
    }
    for refusal in &report.refusals {
        assert!(REASONS.contains(&refusal.reason.as_str()), "{name}: {}", refusal.reason);
        for site in &refusal.sites {
            assert!(supplied.contains(&site.file.as_str()), "{name}: {}", site.file);
        }
    }
    if !case.refused {
        return;
    }
    assert!(
        report.refusals.iter().any(|r| r.name == case.dependency),
        "{name}: an unmodelled grammar produced no refusal"
    );
    for finding in &report.findings {
        assert!(
            !CONFLICTS.contains(&finding.code.as_str()) || finding.name != case.dependency,
            "{name}: a conflict was manufactured out of a grammar the tool does not model"
        );
    }
}

#[test]
fn no_generated_manifest_pair_panics_hangs_or_fabricates_a_conflict() {
    let seed: u64 = 0x7e12_0a5e_0b1d_2026;
    let mut seeded = Seeded(seed);
    let mut refusal_cases = 0usize;
    for case_number in 0..300 {
        let ecosystem = *seeded.pick(&ECOSYSTEMS);
        let pool = unmodelled_pool(ecosystem);
        let refuse = if !pool.is_empty() && seeded.below(2) == 0 {
            Some(*seeded.pick(pool))
        } else {
            None
        };
        let case = match refuse {
            Some(right) => {
                refusal_cases += 1;
                let left = *seeded.pick(modelled_pool(ecosystem));
                build(ecosystem, left, right, true, format!("refusal case {case_number}"))
            }
            None => {
                let left = hostile(ecosystem, &mut seeded);
                let right = hostile(ecosystem, &mut seeded);
                build(ecosystem, &left, &right, false, format!("case {case_number}"))
            }
        };
        check(&case, &report_for(&case.documents));
    }
    assert!(refusal_cases > 0);
}

#[test]
fn pathological_constraints_terminate() {
    let alternatives = (0..500).fold(String::new(), |mut out, index| {
        if !out.is_empty() {
            out.push_str(" || ");
        }
        out.push_str(&format!(">={index}.0.0 <{}.0.0", index + 1));
        out
    });
    let intersections = (0..2_000).fold(String::new(), |mut out, index| {
        if !out.is_empty() {
            out.push(' ');
        }
        out.push_str(&format!(">={}.0.0 <9999.0.0", index % 100));
        out
    });
    let cases: [(&str, String, String); 6] = [
        ("five hundred alternatives against five hundred more", alternatives.clone(), alternatives.clone()),
        ("two thousand intersected comparators", intersections, "^1.0.0".to_string()),
        ("a five hundred segment prerelease chain", format!("1.0.0-{}", vec!["rc.1"; 500].join(".")), "1.0.0".to_string()),
        ("a fifty thousand character version", format!("1.0.{}", "0".repeat(50_000)), "^1.0.0".to_string()),
        ("alternatives against a workspace protocol", alternatives, "workspace:*".to_string()),
        ("unicode digits and an emoji prerelease", "\u{ff11}.\u{ff10}.\u{ff10}".to_string(), "1.0.0-\u{1f389}".to_string()),
    ];
    for (name, left, right) in cases {
        let refused = right == "workspace:*";
        let case = build(Eco::Npm, &left, &right, refused, name.to_string());
        check(&case, &report_for(&case.documents));
    }
}

#[test]
fn every_unmodelled_grammar_in_the_pool_is_refused_and_never_compared() {
    let mut checked = 0usize;
    for ecosystem in ECOSYSTEMS {
        for entry in unmodelled_pool(ecosystem) {
            for left in modelled_pool(ecosystem) {
                let name = format!("pool {} {entry} beside {left}", ecosystem.file());
                let case = build(ecosystem, left, entry, true, name);
                check(&case, &report_for(&case.documents));
                checked += 1;
            }
        }
    }
    assert!(checked >= 30, "only {checked} pool entries were reached");
}
