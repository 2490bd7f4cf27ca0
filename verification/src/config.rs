//! Runtime configuration: which container images to track, where the
//! container runtime listens, and where to serve metrics.

use vstd::prelude::*;

verus! {

/// Configuration for the exporter.
pub struct Config {
    /// Images whose containers are tracked (compared with any `:tag` stripped).
    pub docker_images: Vec<String>,
    /// Path of the container runtime's socket.
    pub docker_socket: String,
    /// Address the metrics endpoint listens on.
    pub listen_address: String,
}

impl Config {
    /// The built-in default configuration.
    pub fn default() -> (c: Config)
        ensures
            c.docker_images@.len() == 1,
            c.docker_images@[0]@ == "atdr.meo.ws/archiveteam/urls-grab"@,
            c.docker_socket@ == "/var/run/docker.sock"@,
            c.listen_address@ == "0.0.0.0:8000"@,
    {
        let mut docker_images: Vec<String> = Vec::new();
        docker_images.push("atdr.meo.ws/archiveteam/urls-grab".to_owned());
        Config {
            docker_images,
            docker_socket: "/var/run/docker.sock".to_owned(),
            listen_address: "0.0.0.0:8000".to_owned(),
        }
    }

    /// A configuration is valid when the tracked-image list and the runtime
    /// socket are both non-empty; the error names the first field that is
    /// empty.
    pub fn validate(&self) -> (r: Result<(), String>)
        ensures
            r is Ok <==> (self.docker_images@.len() != 0 && self.docker_socket@.len() != 0),
            self.docker_images@.len() == 0 ==> r is Err && r->Err_0@ == "docker_images can't be empty"@,
            self.docker_images@.len() != 0 && self.docker_socket@.len() == 0 ==> r is Err
                && r->Err_0@ == "docker_socket can't be empty"@,
    {
        if self.docker_images.is_empty() {
            return Err("docker_images can't be empty".to_owned());
        }

        if self.docker_socket.as_str().is_empty() {
            return Err("docker_socket can't be empty".to_owned());
        }

        Ok(())
    }
}

} // verus!
