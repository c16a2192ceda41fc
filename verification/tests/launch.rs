use relay::helper::{parse_launch, LaunchShapeError};

const ROOT: &str = "/Users/example/Library/Application Support/Relay/mihomo";

fn args(values: &[&str]) -> Vec<String> {
    values.iter().map(|value| (*value).to_owned()).collect()
}

#[test]
fn accepts_only_the_relay_mihomo_launch_shape() {
    let config = format!("{ROOT}/relay-generated.yaml");
    let controller = format!("{ROOT}/controller.sock");
    let launch = args(&["-d", ROOT, "-f", &config, "-ext-ctl-unix", &controller]);

    let request = parse_launch(&launch, ROOT).unwrap();

    assert_eq!(request.data_dir, ROOT);
    assert_eq!(request.config, config);
    assert_eq!(request.controller, controller);
}

#[test]
fn rejects_non_relay_mihomo_launch_shapes() {
    let config = format!("{ROOT}/relay-generated.yaml");
    let launch = args(&["-d", ROOT, "-f", &config, "-ext-ctl", "127.0.0.1:9090"]);

    assert_eq!(
        parse_launch(&launch, ROOT).err(),
        Some(LaunchShapeError::UnexpectedShape)
    );
}

#[test]
fn rejects_controller_paths_outside_the_runtime() {
    let config = format!("{ROOT}/relay-generated.yaml");
    let controller = format!("{ROOT}/nested/controller.sock");
    let launch = args(&["-d", ROOT, "-f", &config, "-ext-ctl-unix", &controller]);

    assert_eq!(
        parse_launch(&launch, ROOT).err(),
        Some(LaunchShapeError::SplitBoundary)
    );
}

#[test]
fn launch_paths_compare_by_components() {
    let launch = args(&[
        "-d",
        "/data//relay/",
        "-f",
        "/data/relay/./config.yaml",
        "-ext-ctl-unix",
        "/data/relay/ctl.sock",
    ]);
    assert!(parse_launch(&launch, "/data/relay").is_ok());
    assert_eq!(
        parse_launch(&launch, "/data/other").err(),
        Some(LaunchShapeError::SplitBoundary)
    );
    assert_eq!(
        LaunchShapeError::SplitBoundary.message(),
        "privileged helper requires config and working directory to share one boundary"
    );
}
