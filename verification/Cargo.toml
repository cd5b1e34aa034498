[package]
name = "kbdgen_cli"
version = "0.1.0"
edition = "2021"
publish = false

[dependencies]
clap-verbosity-flag = "0.3"
console = "0.11"
directories = "3"
globwalk = "0.8"
log = "0.4"
serde-xml-rs = "0.4"
skim = "*"
snafu = "0.6"
snafu-cli-debug = "0.1"
structopt = "0.3"
