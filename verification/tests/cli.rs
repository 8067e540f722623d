use adrnaln_cli::cli::{Args, ClientArgs, Mode, Plan, ServerArgs, UsageError, DELIVERY_CAPACITY};

fn text(s: &str) -> Option<String> {
    Some(s.to_string())
}

#[test]
fn a_server_binds_every_interface_at_its_port() {
    let args = Args {
        mode: Mode::Server(ServerArgs { port: text("8085"), download_directory: text("in") }),
    };
    match args.plan().unwrap() {
        Plan::Serve { addresses, download_directory } => {
            assert_eq!(addresses.local_address, "0.0.0.0:8085");
            assert_eq!(addresses.remote_address, "0.0.0.0:0");
            assert_eq!(download_directory, "in");
        }
        other => panic!("not a server: {:?}", other),
    }
}

#[test]
fn a_server_stores_under_the_current_directory_by_default() {
    let args =
        Args { mode: Mode::Server(ServerArgs { port: text("9"), download_directory: None }) };
    match args.plan().unwrap() {
        Plan::Serve { download_directory, .. } => assert_eq!(download_directory, "."),
        other => panic!("not a server: {:?}", other),
    }
}

#[test]
fn a_server_without_a_port_is_a_usage_error() {
    let args =
        Args { mode: Mode::Server(ServerArgs { port: None, download_directory: text("in") }) };
    let error = args.plan().unwrap_err();
    assert_eq!(error, UsageError::PortRequired);
    assert_eq!(error.message(), "Port is required");
}

#[test]
fn a_client_sends_to_the_peer_from_any_port() {
    let args = Args {
        mode: Mode::Client(ClientArgs {
            ip: text("192.168.1.20"),
            port: text("8085"),
            file: text("images/arch.png"),
        }),
    };
    match args.plan().unwrap() {
        Plan::Send { addresses, file } => {
            assert_eq!(addresses.local_address, "0.0.0.0:0");
            assert_eq!(addresses.remote_address, "192.168.1.20:8085");
            assert_eq!(file, "images/arch.png");
        }
        other => panic!("not a client: {:?}", other),
    }
}

#[test]
fn a_client_without_an_address_a_port_or_a_file_is_a_usage_error() {
    let all = ClientArgs { ip: text("::1"), port: text("1"), file: text("f") };
    let mut no_ip = all.clone();
    no_ip.ip = None;
    let mut no_port = all.clone();
    no_port.port = None;
    let mut no_file = all.clone();
    no_file.file = None;
    let none = ClientArgs { ip: None, port: None, file: None };
    for args in [no_ip, no_port, no_file, none] {
        let error = Args { mode: Mode::Client(args) }.plan().unwrap_err();
        assert_eq!(error, UsageError::ClientFieldsRequired);
        assert_eq!(error.message(), "Port, IP and File are required");
    }
    assert!(Args { mode: Mode::Client(all) }.plan().is_ok());
}

#[test]
fn a_hundred_transfers_may_wait_for_the_consumer() {
    assert_eq!(DELIVERY_CAPACITY, 100);
}
