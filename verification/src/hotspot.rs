//! The hotspot controller: decides what to ask of the external
//! network-configuration tool and how to read its answers.
//!
//! Construction validates the configuration — in particular the minimum
//! password length — and fails before any external command is issued.
//! The controller itself never spawns a process: it hands the runtime the
//! exact argument lists to run and interprets the exit status, so the
//! whole decision logic is verified while the process handling stays with
//! the runtime.

use vstd::prelude::*;
use vstd::string::StrSliceExecFns;
use vstd::string::StringExecFns;

use crate::errors::TallyError;

verus! {

/// NetworkManager hotspot configuration.
pub struct NMHotspot {
    ssid: String,
    con_name: String,
    password: String,
    ipv4: String,
}

impl NMHotspot {
    /// The access point's SSID.
    pub closed spec fn ssid_spec(&self) -> Seq<char> {
        self.ssid@
    }

    /// The tool-side connection profile name.
    pub closed spec fn con_name_spec(&self) -> Seq<char> {
        self.con_name@
    }

    /// The access point's password.
    pub closed spec fn password_spec(&self) -> Seq<char> {
        self.password@
    }

    /// The shared IPv4 addressing of the access point.
    pub closed spec fn ipv4_spec(&self) -> Seq<char> {
        self.ipv4@
    }

    /// Validates the configuration: a password shorter than eight
    /// characters is rejected before any external command is issued.
    pub fn new(ssid: String, con_name: String, password: String, ipv4: String) -> (r: Result<
        Self,
        TallyError,
    >)
        ensures
            r is Ok <==> password@.len() >= 8,
            r matches Ok(h) ==> h.ssid_spec() == ssid@ && h.con_name_spec() == con_name@
                && h.password_spec() == password@ && h.ipv4_spec() == ipv4@,
            r matches Err(e) ==> e is ValidationError,
    {
        if password.as_str().unicode_len() < 8 {
            return Err(TallyError::ValidationError);
        }
        Ok(NMHotspot { ssid, con_name, password, ipv4 })
    }

    /// The command that asks the tool whether the connection profile
    /// already exists (exit status zero means it does).
    pub fn exists_command(&self) -> (r: Vec<String>)
        ensures
            r.deep_view() == seq!["nmcli"@, "connection"@, "show"@, self.con_name_spec()],
    {
        let mut cmd: Vec<String> = Vec::new();
        cmd.push(String::from_str("nmcli"));
        cmd.push(String::from_str("connection"));
        cmd.push(String::from_str("show"));
        cmd.push(self.con_name.clone());
        proof {
            assert(cmd.deep_view() =~= seq!["nmcli"@, "connection"@, "show"@, self.con_name_spec()]);
        }
        cmd
    }

    /// The two commands that create the profile: the hotspot itself, then
    /// the shared IPv4 addressing.
    pub fn create_commands(&self) -> (r: Vec<Vec<String>>)
        ensures
            r.deep_view() == seq![self.create_commands_spec0(), self.create_commands_spec1()],
    {
        let mut first: Vec<String> = Vec::new();
        first.push(String::from_str("nmcli"));
        first.push(String::from_str("device"));
        first.push(String::from_str("wifi"));
        first.push(String::from_str("hotspot"));
        first.push(String::from_str("con-name"));
        first.push(self.con_name.clone());
        first.push(String::from_str("ssid"));
        first.push(self.ssid.clone());
        first.push(String::from_str("password"));
        first.push(self.password.clone());
        let mut second: Vec<String> = Vec::new();
        second.push(String::from_str("nmcli"));
        second.push(String::from_str("connection"));
        second.push(String::from_str("modify"));
        second.push(self.con_name.clone());
        second.push(String::from_str("ipv4.method"));
        second.push(String::from_str("shared"));
        second.push(String::from_str("ipv4.addresses"));
        second.push(self.ipv4.clone());
        let mut cmds: Vec<Vec<String>> = Vec::new();
        cmds.push(first);
        cmds.push(second);
        proof {
            assert(cmds.deep_view()[0] =~= self.create_commands_spec0());
            assert(cmds.deep_view()[1] =~= self.create_commands_spec1());
            assert(cmds.deep_view() =~= seq![
                self.create_commands_spec0(), self.create_commands_spec1(),
            ]);
        }
        cmds
    }

    /// The command that brings the profile up.
    pub fn up_command(&self) -> (r: Vec<String>)
        ensures
            r.deep_view() == seq!["nmcli"@, "connection"@, "up"@, self.con_name_spec()],
    {
        let mut cmd: Vec<String> = Vec::new();
        cmd.push(String::from_str("nmcli"));
        cmd.push(String::from_str("connection"));
        cmd.push(String::from_str("up"));
        cmd.push(self.con_name.clone());
        proof {
            assert(cmd.deep_view() =~= seq!["nmcli"@, "connection"@, "up"@, self.con_name_spec()]);
        }
        cmd
    }

    /// The command that brings the profile down.
    pub fn down_command(&self) -> (r: Vec<String>)
        ensures
            r.deep_view() == seq!["nmcli"@, "connection"@, "down"@, self.con_name_spec()],
    {
        let mut cmd: Vec<String> = Vec::new();
        cmd.push(String::from_str("nmcli"));
        cmd.push(String::from_str("connection"));
        cmd.push(String::from_str("down"));
        cmd.push(self.con_name.clone());
        proof {
            assert(cmd.deep_view() =~= seq![
                "nmcli"@, "connection"@, "down"@, self.con_name_spec(),
            ]);
        }
        cmd
    }

    /// The commands that enable the hotspot, given whether the profile
    /// already exists: create it first when it does not, then bring it up.
    pub fn enable_commands(&self, profile_exists: bool) -> (r: Vec<Vec<String>>)
        ensures
            profile_exists ==> r.deep_view() == seq![self.up_command_spec()],
            !profile_exists ==> r.deep_view() == seq![
                self.create_commands_spec0(), self.create_commands_spec1(), self.up_command_spec(),
            ],
    {
        let mut cmds: Vec<Vec<String>> = Vec::new();
        if !profile_exists {
            let mut created: Vec<Vec<String>> = self.create_commands();
            proof {
                assert(created.deep_view().len() == 2);
                assert(created.deep_view() =~= created@.map_values(
                    |v: Vec<String>| v.deep_view(),
                ));
            }
            let second: Vec<String> = created.remove(1);
            let first: Vec<String> = created.remove(0);
            cmds.push(first);
            cmds.push(second);
        }
        cmds.push(self.up_command());
        proof {
            if profile_exists {
                assert(cmds.deep_view() =~= seq![self.up_command_spec()]);
            } else {
                assert(cmds.deep_view() =~= seq![
                    self.create_commands_spec0(), self.create_commands_spec1(),
                    self.up_command_spec(),
                ]);
            }
        }
        cmds
    }

    /// The first profile-creation command.
    pub open spec fn create_commands_spec0(&self) -> Seq<Seq<char>> {
        seq![
            "nmcli"@, "device"@, "wifi"@, "hotspot"@, "con-name"@, self.con_name_spec(), "ssid"@,
            self.ssid_spec(), "password"@, self.password_spec(),
        ]
    }

    /// The second profile-creation command.
    pub open spec fn create_commands_spec1(&self) -> Seq<Seq<char>> {
        seq![
            "nmcli"@, "connection"@, "modify"@, self.con_name_spec(), "ipv4.method"@, "shared"@,
            "ipv4.addresses"@, self.ipv4_spec(),
        ]
    }

    /// The bring-up command.
    pub open spec fn up_command_spec(&self) -> Seq<Seq<char>> {
        seq!["nmcli"@, "connection"@, "up"@, self.con_name_spec()]
    }
}

/// Interprets one run of the external tool: exit status zero is success,
/// anything else carries the captured output as an external-tool error.
pub fn tool_result(success: bool, stdout: String, stderr: String) -> (r: Result<(), TallyError>)
    ensures
        r is Ok <==> success,
        !success ==> (r matches Err(TallyError::ExternalToolError { stdout: o, stderr: s }) && o@
            == stdout@ && s@ == stderr@),
{
    if success {
        Ok(())
    } else {
        Err(TallyError::ExternalToolError { stdout, stderr })
    }
}

} // verus!
