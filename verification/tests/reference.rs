use peeko::reference::{collect_images, image_directory, image_reference, parse_image_url, PeekoCliError};

const DEFAULT_REGISTRY: &str = "https://registry-1.docker.io";

#[test]
fn test_parse_image_url() {
    // full image url
    let (registry_url, image, tag) =
        parse_image_url("registry-1.docker.io/library/nginx:latest").unwrap();
    assert_eq!(registry_url, "https://registry-1.docker.io");
    assert_eq!(image, "library/nginx");
    assert_eq!(tag, "latest");

    // official image
    let (registry_url, image, tag) = parse_image_url("nginx:latest").unwrap();
    assert_eq!(registry_url, DEFAULT_REGISTRY);
    assert_eq!(image, "library/nginx");
    assert_eq!(tag, "latest");

    let (registry_url, image, tag) = parse_image_url("mcp/slack:latest").unwrap();
    assert_eq!(registry_url, DEFAULT_REGISTRY);
    assert_eq!(image, "mcp/slack");
    assert_eq!(tag, "latest");

    let (registry_url, image, tag) = parse_image_url("ghcr.io/owner/image:tag").unwrap();
    assert_eq!(registry_url, "https://ghcr.io");
    assert_eq!(image, "owner/image");
    assert_eq!(tag, "tag");
}

#[test]
fn parse_image_url_needs_a_tag() {
    match parse_image_url("nginx") {
        Err(PeekoCliError::Input(message)) => assert_eq!(message, "Image tag is required"),
        other => panic!("unexpected: {:?}", other),
    }
    assert!(matches!(parse_image_url(""), Err(PeekoCliError::Input(_))));
}

#[test]
fn parse_image_url_splits_at_the_last_colon() {
    let (registry_url, image, tag) = parse_image_url("localhost:5000/app:v1").unwrap();
    assert_eq!(registry_url, DEFAULT_REGISTRY);
    assert_eq!(image, "localhost:5000/app");
    assert_eq!(tag, "v1");
    let (registry_url, image, tag) = parse_image_url("my.host:5000/team/app:").unwrap();
    assert_eq!(registry_url, "https://my.host:5000");
    assert_eq!(image, "team/app");
    assert_eq!(tag, "");
}

#[test]
fn image_reference_replaces_the_last_slash() {
    assert_eq!(image_reference("library/node/24-alpine"), "library/node:24-alpine");
    assert_eq!(image_reference("nginx/latest"), "nginx:latest");
    assert_eq!(image_reference("plain"), "plain");
    assert_eq!(image_reference(""), "");
}

#[test]
fn collect_images_keeps_the_order() {
    let dirs = vec!["library/node/24-alpine".to_string(), "mcp/slack/latest".to_string()];
    assert_eq!(
        collect_images(&dirs),
        vec!["library/node:24-alpine".to_string(), "mcp/slack:latest".to_string()]
    );
    assert!(collect_images(&Vec::new()).is_empty());
}

#[test]
fn image_directory_joins_name_and_tag() {
    assert_eq!(image_directory("library/node", "24-alpine"), "library/node/24-alpine");
}
